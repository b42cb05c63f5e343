//! A cross-venue position keeper: raw venue fills in, one ordered tape of canonical fills out,
//! and net positions, realized PnL and fees per account kept from that tape.

pub mod arrivals;
pub mod binary64;
pub mod boundary;
pub mod canonical;
pub mod convert;
pub mod decimal;
pub mod feeds;
pub mod fixed;
pub mod fixtures;
pub mod ingest;
pub mod ingester;
pub mod instrument;
pub mod keeper;
pub mod ledger;
pub mod matched;
pub mod position;
pub mod rounding;
pub mod sequencer;
pub mod stream;
pub mod tape;
pub mod text;
pub mod wire;

pub use boundary::{HlEvent, PmEvent, WirePrice};
pub use canonical::{Fill, RejectReason, Side};
pub use convert::{price_to_ticks, Canonicalize};
pub use fixed::{Lots, Micro, Ticks};
pub use ingest::{Alert, AlertKind, DeadLetter, DeadLetterReason, IngestOutcome, IngestStats};
pub use ingester::Ingester;
pub use instrument::{
    InstrumentId, InstrumentSource, InstrumentSpec, Kind, Registry, RegistryError, Venue,
};
pub use keeper::{PositionKeeper, PositionStore};
pub use position::{Position, PositionBook, PositionDelta, PositionKey};
pub use rounding::{PositionRounding, POSITION_ROUNDING};
pub use sequencer::{SequencedFill, Sequencer, SequencerError};
pub use stream::{BoundaryEvent, RawEvent, RawLine};
