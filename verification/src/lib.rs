//! Day-view layout of time intervals.
//!
//! Events are half-open intervals `[start, end)` over a whole-numbered time
//! axis. The library clusters them into groups of events that chains of
//! overlaps connect, packs each group into side-by-side columns so that no
//! column holds two overlapping events, and reports the place of every event
//! as exact lengths within the span of its group.
//!
//! * [`event`]: events and the errors that reject them.
//! * [`order`]: the order in which events are swept, and the sort that finds it.
//! * [`rect`]: vacant stretches of columns, first fit, and the scan for them.
//! * [`packing`]: the model of a group and of the two packing policies.
//! * [`group`]: the group itself.
//! * [`layout`]: laid-out groups.
//! * [`sweep`]: the sweep that clusters, packs and lays out.
//! * [`codec`]: flat buffers in and out.
//! * [`keys`]: whole-numbered keys for times held as single-precision numbers.
//!
//! What holds of every layout is proved in [`laws`] (every event is kept;
//! lengths make up the span; columns and groups lie in order), in
//! [`chains`] (groups are the classes of connected events), in
//! [`regrouping`] (clustering does not depend on the order of the input),
//! in [`agreement`] (on valid events both policies pack alike) and in
//! [`fewest`] (on valid events no packing gets by with fewer columns).
//! [`invariants`] and [`seqs`] hold the lemmas that these rest on.

pub mod agreement;
pub mod chains;
pub mod codec;
pub mod event;
pub mod fewest;
pub mod group;
pub mod invariants;
pub mod keys;
pub mod laws;
pub mod layout;
pub mod order;
pub mod packing;
pub mod rect;
pub mod regrouping;
pub mod seqs;
pub mod sweep;

pub use crate::codec::{generate_result_array, parse_events, process_events};
pub use crate::event::{Event, LayoutError};
pub use crate::group::Group;
pub use crate::layout::{EventLayout, LayoutGroup};
pub use crate::packing::PackingPolicy;
pub use crate::rect::FreeRect;
pub use crate::sweep::{group_events, process_events_impl, process_events_with};
