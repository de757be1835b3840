//! An append-only, checksummed key/value log with an in-memory offset index,
//! together with the fixed-layout telemetry frame codec and the flight
//! segmentation rules that sit on top of it.

mod codec;
mod error;
mod flight;
mod frame;
mod ingest;
mod iterator;
mod naming;
mod phase;
mod store;
mod types;

pub use types::{borrowed_to_owned, owned_to_value, BorrowedEntry, Item, Key, OwnedEntry, Value};
pub use codec::{deserialize_key, deserialize_value, serialize_key, serialize_value, HEADER_SIZE, TAG_INT, TAG_TEXT};
pub use error::{DeserializationError, StoreError};
pub use store::{LogModel, Snapshot, Store, FILE_VERSION, META_SIZE};
pub use iterator::{StoreIter, StoreIterator};
pub use frame::{TelemetryPacket, PACKET_SIZE};
pub use phase::{classify_phase, Phase, PhaseSignals};
pub use naming::{flight_id_for, flight_key, parse_usize, starts_with, telem_key, telem_prefix};
pub use flight::{delete_flight, LANDING_CONFIRM_MS, TIMEOUT_MS, keys_with_prefix, max_flight_number, FlightState, FlightSummary, FlightTracker, Step};
pub use ingest::{on_upstream_event, IngestAction, UpstreamEvent, RECONNECT_DELAY_SECS};
pub use codec::{
    crc32_of, decode_key, decode_value, item_fits, item_payload, key_bytes, lemma_altered_payload_detected,
    lemma_key_round_trip, lemma_value_round_trip, value_record,
};
pub use store::{
    delete_model, keys_file, layout_sound, lemma_compaction_never_grows, lemma_delete_keeps_layout,
    lemma_delete_removes, lemma_empty_layout_sound, lemma_get_after_put, lemma_put_keeps_layout,
    lemma_put_keeps_other_keys, lemma_snapshot_round_trip, live_total, load_index, meta_file, put_model, read_at,
    read_model, records_disjoint, key_storable,
};
pub use frame::{decode_packet, lemma_packet_round_trip, packet_bytes};
pub use phase::{lemma_classification_total, phase_name, phase_of};
pub use flight::{after, is_max_flight_number, lemma_new_flight_key_is_fresh, times_out, transition};
pub use naming::{flight_id_text, flight_key_text, telem_key_text};
