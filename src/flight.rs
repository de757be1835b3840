use crate::error::StoreError;
use crate::naming::{flight_id_for, flight_id_text, flight_key, flight_key_text, flight_number_of, flight_number_prefix, lemma_padded_parses, padded3, parse_usize, parsed_usize, starts_with, telem_key, telem_key_text, telem_prefix, telem_prefix_text};
use crate::store::{all_readable, live_total, read_at, read_model, LogModel, Store};
use crate::codec::utf8;
use crate::store::put_model;
use crate::types::{Item, Key, Value};
use vstd::bytes::*;
use vstd::prelude::*;
use vstd::string::*;

verus! {

/// How long the ground criteria must hold before a landing is confirmed, in ms.
pub const LANDING_CONFIRM_MS: u64 = 5000;

/// The longest gap between frames that keeps a flight open, in ms.
pub const TIMEOUT_MS: u64 = 60000;

/// Where the segmenter believes the aircraft is.
#[derive(Debug, Clone, Copy, PartialEq, Eq)]
pub enum FlightState {
    OnGround,
    InFlight,
    Landing,
}

/// `a - b`, or 0 where `b` is larger.
pub open spec fn gap(a: u64, b: u64) -> u64 {
    if a >= b { (a - b) as u64 } else { 0 }
}

/// The next state and landing-check start after a frame, from the current
/// state, whether the frame meets the ground criteria, and its timestamp.
pub open spec fn transition(s: FlightState, on_ground: bool, ts: u64, check: Option<u64>) -> (FlightState, Option<u64>) {
    match s {
        FlightState::OnGround => if on_ground { (FlightState::OnGround, check) } else { (FlightState::InFlight, check) },
        FlightState::InFlight => if on_ground { (FlightState::Landing, Some(ts)) } else { (FlightState::InFlight, check) },
        FlightState::Landing => if !on_ground {
            (FlightState::InFlight, None)
        } else if gap(ts, match check { Some(t) => t, None => ts }) >= LANDING_CONFIRM_MS {
            (FlightState::OnGround, check)
        } else {
            (FlightState::Landing, check)
        },
    }
}

/// Whether a frame at `ts` ends the open flight for silence since `last`.
pub open spec fn times_out(open: bool, last: Option<u64>, ts: u64) -> bool {
    open && match last {
        Some(t) => gap(ts, t) > TIMEOUT_MS,
        None => false,
    }
}

/// `mx` is the largest flight number among the live keys, or 0 if none has one.
pub open spec fn is_max_flight_number(m: LogModel, mx: usize) -> bool {
    &&& forall|k: Item| #[trigger] m.index.contains_key(k) && flight_number_of(k) is Some ==> flight_number_of(k)->Some_0 <= mx
    &&& mx == 0 || exists|k: Item| #[trigger] m.index.contains_key(k) && flight_number_of(k) == Some(mx)
}

/// The number after `mx`, held at the largest `usize`.
pub open spec fn after(mx: usize) -> usize {
    if mx == usize::MAX { mx } else { (mx + 1) as usize }
}

/// The text of an optional identifier.
pub open spec fn id_view(o: Option<String>) -> Option<Seq<char>> {
    match o {
        Some(s) => Some(s@),
        None => None,
    }
}

/// The largest flight number among the store's `flight:flight_<N>` keys, or 0.
pub fn max_flight_number(store: &Store) -> (r: usize)
    requires
        store.wf(),
    ensures
        is_max_flight_number(store@, r),
{
    let keys = store.keys();
    let prefix = "flight:flight_";
    proof {
        reveal_strlit("flight:flight_");
    }
    let mut mx: usize = 0;
    let mut i: usize = 0;
    while i < keys.len()
        invariant
            prefix@ == flight_number_prefix(),
            i <= keys@.len(),
            forall|k: Item| store@.index.contains_key(k) <==> exists|j: int| 0 <= j < keys@.len() && #[trigger] keys@[j]@ == k,
            forall|j: int| 0 <= j < i && flight_number_of(#[trigger] keys@[j]@) is Some ==> flight_number_of(keys@[j]@)->Some_0 <= mx,
            mx == 0 || exists|j: int| 0 <= j < i && flight_number_of(#[trigger] keys@[j]@) == Some(mx),
        decreases keys@.len() - i,
    {
        let key: &Key = keys[i];
        match key {
            Key::String(k) => {
                let t = k.as_str();
                if starts_with(t, prefix) {
                    proof {
                        reveal_strlit("flight:flight_");
                    }
                    assert(prefix@.len() == 14);
                    let rest = t.substring_char(14, t.unicode_len());
                    assert(flight_number_of(key@) == parsed_usize(rest@));
                    match parse_usize(rest) {
                        Some(n) => {
                            if n > mx {
                                mx = n;
                            }
                        },
                        None => {},
                    }
                } else {
                    assert(flight_number_of(key@) is None);
                }
            },
            Key::Int(_) => {},
        }
        proof {
            assert(keys@[i as int]@ == key@);
        }
        i = i + 1;
    }
    proof {
        assert forall|k: Item| #[trigger] store@.index.contains_key(k) && flight_number_of(k) is Some implies flight_number_of(k)->Some_0 <= mx by {
            let j = choose|j: int| 0 <= j < keys@.len() && #[trigger] keys@[j]@ == k;
        }
        if mx != 0 {
            let j = choose|j: int| 0 <= j < i && flight_number_of(#[trigger] keys@[j]@) == Some(mx);
            assert(store@.index.contains_key(keys@[j]@));
        }
    }
    mx
}

/// What a frame did to the flights, in the order it happened.
pub struct Step {
    /// The flight closed first because the stream fell silent for too long.
    pub aborted: Option<String>,
    /// Whether a flight was open once the silence check was done, so that the
    /// distance from the previous position counts towards it.
    pub accumulate: bool,
    /// The flight this frame opened.
    pub started: Option<String>,
    /// The flight this frame closed on a confirmed landing.
    pub landed: Option<String>,
    /// The flight the frame belongs to and is recorded under, if any.
    pub current: Option<String>,
}

/// The state machine that cuts a stream of frames into flights, together
/// with the store the flights are kept in.
pub struct FlightTracker {
    pub store: Store,
    state: FlightState,
    landing_check_start: Option<u64>,
    last_packet_time: Option<u64>,
    current_flight_id: Option<String>,
}

impl FlightTracker {
    /// The store the flights are kept in.
    pub closed spec fn log(&self) -> Store {
        self.store
    }

    /// The segmenter's state.
    pub closed spec fn state(&self) -> FlightState {
        self.state
    }

    /// When the ground criteria started to hold during a landing.
    pub closed spec fn landing_start(&self) -> Option<u64> {
        self.landing_check_start
    }

    /// The timestamp of the last frame seen.
    pub closed spec fn last_time(&self) -> Option<u64> {
        self.last_packet_time
    }

    /// The identifier of the open flight.
    pub closed spec fn current(&self) -> Option<Seq<char>> {
        id_view(self.current_flight_id)
    }

    /// The store is well formed, and a flight is open exactly when the
    /// segmenter is not on the ground.
    pub closed spec fn wf(&self) -> bool {
        &&& self.store.wf()
        &&& (self.current_flight_id is Some <==> self.state != FlightState::OnGround)
    }

    /// A tracker on the ground, with no flight open, over `store`.
    pub fn new(store: Store) -> (r: FlightTracker)
        requires
            store.wf(),
        ensures
            r.wf(),
            r.log() == store,
            r.state() == FlightState::OnGround,
            r.landing_start() is None,
            r.last_time() is None,
            r.current() is None,
    {
        FlightTracker {
            store,
            state: FlightState::OnGround,
            landing_check_start: None,
            last_packet_time: None,
            current_flight_id: None,
        }
    }

    /// The identifier of the open flight, if any.
    pub fn get_current_flight_id(&self) -> (r: Option<String>)
        ensures
            id_view(r) == self.current(),
    {
        match &self.current_flight_id {
            Some(id) => Some(id.clone()),
            None => None,
        }
    }

    /// Stores a frame's text under `telem:<id>:<timestamp>` of the open flight,
    /// replacing an earlier frame with the same timestamp. Does nothing, and
    /// returns `false`, when no flight is open.
    pub fn record_frame(&mut self, timestamp: u64, frame_text: String) -> (written: bool)
        requires
            old(self).wf(),
            old(self).log()@.data.len() + utf8(frame_text@).len() + 64 <= usize::MAX,
        ensures
            final(self).wf(),
            final(self).state() == old(self).state(),
            final(self).landing_start() == old(self).landing_start(),
            final(self).last_time() == old(self).last_time(),
            final(self).current() == old(self).current(),
            written == old(self).current() is Some,
            match old(self).current() {
                Some(id) => final(self).log()@ == put_model(
                    old(self).log()@,
                    Item::Text(telem_key_text(id, timestamp as nat)),
                    Item::Text(frame_text@),
                ),
                None => final(self).log() == old(self).log(),
            },
    {
        proof {
            lemma_auto_spec_u64_to_from_le_bytes();
            lemma_auto_spec_u32_to_from_le_bytes();
        }
        match &self.current_flight_id {
            Some(id) => {
                let key = telem_key(id.as_str(), timestamp);
                self.store.put(Key::String(key), Value::String(frame_text));
                true
            },
            None => false,
        }
    }

    /// Stores the metadata text of flight `flight_id` under `flight:<flight_id>`,
    /// replacing the earlier one.
    pub fn write_flight_record(&mut self, flight_id: &str, record_text: String)
        requires
            old(self).wf(),
            old(self).log()@.data.len() + utf8(record_text@).len() + 64 <= usize::MAX,
        ensures
            final(self).wf(),
            final(self).state() == old(self).state(),
            final(self).landing_start() == old(self).landing_start(),
            final(self).last_time() == old(self).last_time(),
            final(self).current() == old(self).current(),
            final(self).log()@ == put_model(
                old(self).log()@,
                Item::Text(flight_key_text(flight_id@)),
                Item::Text(record_text@),
            ),
    {
        proof {
            lemma_auto_spec_u64_to_from_le_bytes();
            lemma_auto_spec_u32_to_from_le_bytes();
        }
        self.store.put(Key::String(flight_key(flight_id)), Value::String(record_text));
    }

    /// At most one flight is open, and it is open exactly while the segmenter
    /// is off the ground.
    pub proof fn lemma_one_open_flight(&self)
        requires
            self.wf(),
        ensures
            self.current() is Some <==> self.state() != FlightState::OnGround,
    {
    }

    /// Feeds one frame: its timestamp and whether it meets the ground criteria
    /// (GPS altitude and ground speed at most their thresholds, position
    /// stable). Closes a flight silent for more than a minute, moves the state
    /// machine, opens a flight numbered one past the largest stored one on
    /// take-off and closes it once a landing is confirmed.
    pub fn observe(&mut self, timestamp: u64, on_ground: bool) -> (r: Step)
        requires
            old(self).wf(),
        ensures
            final(self).wf(),
            final(self).log() == old(self).log(),
            final(self).last_time() == Some(timestamp),
            id_view(r.current) == final(self).current(),
            ({
                let to = times_out(old(self).current() is Some, old(self).last_time(), timestamp);
                let s0 = if to { FlightState::OnGround } else { old(self).state() };
                let l0 = if to { None } else { old(self).landing_start() };
                let s1 = transition(s0, on_ground, timestamp, l0).0;
                let l1 = transition(s0, on_ground, timestamp, l0).1;
                let starts = s0 == FlightState::OnGround && s1 == FlightState::InFlight;
                let lands = s0 == FlightState::Landing && s1 == FlightState::OnGround;
                &&& id_view(r.aborted) == (if to { old(self).current() } else { None })
                &&& r.accumulate == (old(self).current() is Some && !to)
                &&& (starts ==> exists|mx: usize| is_max_flight_number(old(self).log()@, mx)
                    && id_view(r.started) == Some(flight_id_text(after(mx) as nat)))
                &&& (!starts ==> r.started is None)
                &&& id_view(r.landed) == (if lands { old(self).current() } else { None })
                &&& final(self).state() == s1
                &&& final(self).landing_start() == (if lands { None } else { l1 })
                &&& final(self).current() == (if starts { id_view(r.started) } else if lands || to { None } else { old(self).current() })
            }),
    {
        let mut aborted: Option<String> = None;
        let timed_out = match self.last_packet_time {
            Some(last) => {
                let g = if timestamp >= last { timestamp - last } else { 0 };
                g > TIMEOUT_MS && self.current_flight_id.is_some()
            },
            None => false,
        };
        if timed_out {
            aborted = self.current_flight_id.take();
            self.landing_check_start = None;
            self.state = FlightState::OnGround;
        }
        let accumulate = self.current_flight_id.is_some();
        let before = self.state;
        let next = match self.state {
            FlightState::OnGround => if on_ground { FlightState::OnGround } else { FlightState::InFlight },
            FlightState::InFlight => {
                if on_ground {
                    self.landing_check_start = Some(timestamp);
                    FlightState::Landing
                } else {
                    FlightState::InFlight
                }
            },
            FlightState::Landing => {
                if !on_ground {
                    self.landing_check_start = None;
                    FlightState::InFlight
                } else {
                    let since = match self.landing_check_start {
                        Some(t) => t,
                        None => timestamp,
                    };
                    let stable = if timestamp >= since { timestamp - since } else { 0 };
                    if stable >= LANDING_CONFIRM_MS {
                        FlightState::OnGround
                    } else {
                        FlightState::Landing
                    }
                }
            },
        };
        let mut started: Option<String> = None;
        let mut landed: Option<String> = None;
        let ghost to = timed_out;
        let ghost mut witness: usize = 0;
        match (before, next) {
            (FlightState::OnGround, FlightState::InFlight) => {
                let mx = max_flight_number(&self.store);
                let n = if mx == usize::MAX { mx } else { mx + 1 };
                let id = flight_id_for(n as u64);
                started = Some(id.clone());
                self.current_flight_id = Some(id);
                proof {
                    witness = mx;
                }
            },
            (FlightState::Landing, FlightState::OnGround) => {
                landed = self.current_flight_id.take();
                self.landing_check_start = None;
            },
            _ => {},
        }
        self.state = next;
        self.last_packet_time = Some(timestamp);
        let current = match &self.current_flight_id {
            Some(id) => Some(id.clone()),
            None => None,
        };
        proof {
            let s0 = if to { FlightState::OnGround } else { old(self).state() };
            let l0 = if to { None } else { old(self).landing_start() };
            let s1 = transition(s0, on_ground, timestamp, l0).0;
            if s0 == FlightState::OnGround && s1 == FlightState::InFlight {
                assert(is_max_flight_number(old(self).log()@, witness) && id_view(started) == Some(flight_id_text(after(witness) as nat)));
            }
        }
        Step { aborted, accumulate, started, landed, current }
    }
}

/// Whether `k` is a text key beginning with `prefix`.
pub open spec fn has_prefix(k: Item, prefix: Seq<char>) -> bool {
    match k {
        Item::Text(cs) => prefix.is_prefix_of(cs),
        Item::Int(_) => false,
    }
}

/// Whether deleting flight `id` removes key `k`: its metadata key and the keys
/// of its frames.
pub open spec fn belongs_to_flight(k: Item, id: Seq<char>) -> bool {
    k == Item::Text(flight_key_text(id)) || has_prefix(k, telem_prefix_text(id))
}

/// The live text keys that begin with `prefix`, each once.
pub fn keys_with_prefix(store: &Store, prefix: &str) -> (r: Vec<Key>)
    requires
        store.wf(),
    ensures
        forall|i: int, j: int| 0 <= i < j < r@.len() ==> #[trigger] r@[i]@ != #[trigger] r@[j]@,
        forall|i: int| 0 <= i < r@.len() ==> store@.index.contains_key(#[trigger] r@[i]@) && has_prefix(r@[i]@, prefix@),
        forall|k: Item| #[trigger] store@.index.contains_key(k) && has_prefix(k, prefix@) ==> exists|i: int|
            0 <= i < r@.len() && #[trigger] r@[i]@ == k,
{
    let keys = store.keys();
    let mut out: Vec<Key> = Vec::new();
    let ghost mut idx: Seq<int> = Seq::empty();
    let mut i: usize = 0;
    while i < keys.len()
        invariant
            i <= keys@.len(),
            forall|a: int, b: int| 0 <= a < b < keys@.len() ==> #[trigger] keys@[a]@ != #[trigger] keys@[b]@,
            forall|k: Item| store@.index.contains_key(k) <==> exists|j: int| 0 <= j < keys@.len() && #[trigger] keys@[j]@ == k,
            idx.len() == out@.len(),
            forall|a: int| 0 <= a < out@.len() ==> 0 <= #[trigger] idx[a] < i && keys@[idx[a]]@ == out@[a]@,
            forall|a: int, b: int| 0 <= a < b < idx.len() ==> #[trigger] idx[a] < #[trigger] idx[b],
            forall|a: int| 0 <= a < out@.len() ==> has_prefix(#[trigger] out@[a]@, prefix@),
            forall|j: int| 0 <= j < i && has_prefix(#[trigger] keys@[j]@, prefix@) ==> exists|a: int|
                0 <= a < idx.len() && #[trigger] idx[a] == j,
        decreases keys@.len() - i,
    {
        let key: &Key = keys[i];
        let take = match key {
            Key::String(k) => starts_with(k.as_str(), prefix),
            Key::Int(_) => false,
        };
        if take {
            out.push(key.duplicate());
            proof {
                let prev = idx;
                idx = idx.push(i as int);
                assert forall|j: int| 0 <= j < i + 1 && has_prefix(#[trigger] keys@[j]@, prefix@) implies exists|a: int|
                    0 <= a < idx.len() && #[trigger] idx[a] == j by {
                    if j == i {
                        assert(idx[idx.len() - 1] == j);
                    } else {
                        let a = choose|a: int| 0 <= a < prev.len() && #[trigger] prev[a] == j;
                        assert(idx[a] == prev[a]);
                    }
                }
            }
        }
        i = i + 1;
    }
    proof {
        assert forall|a: int, b: int| 0 <= a < b < out@.len() implies #[trigger] out@[a]@ != #[trigger] out@[b]@ by {
            assert(idx[a] < idx[b]);
            assert(keys@[idx[a]]@ != keys@[idx[b]]@);
        }
        assert forall|a: int| 0 <= a < out@.len() implies store@.index.contains_key(#[trigger] out@[a]@) by {
            assert(keys@[idx[a]]@ == out@[a]@);
        }
        assert forall|k: Item| #[trigger] store@.index.contains_key(k) && has_prefix(k, prefix@) implies exists|a: int|
            0 <= a < out@.len() && #[trigger] out@[a]@ == k by {
            let j = choose|j: int| 0 <= j < keys@.len() && #[trigger] keys@[j]@ == k;
            assert(has_prefix(keys@[j]@, prefix@));
            let a = choose|a: int| 0 <= a < idx.len() && #[trigger] idx[a] == j;
            assert(out@[a]@ == k);
        }
    }
    out
}

/// Deletes flight `id`: its metadata key, then the keys of all its frames,
/// then compacts the store, leaving no garbage. Fails with `KeyNotFound`,
/// changing nothing, when the flight has no metadata; fails with the
/// compaction's error, after the deletions, when a remaining record cannot be
/// read.
pub fn delete_flight(store: &mut Store, flight_id: &str) -> (r: Result<(), StoreError>)
    requires
        old(store).wf(),
    ensures
        final(store).wf(),
        final(store).base_path() == old(store).base_path(),
        !old(store)@.index.contains_key(Item::Text(flight_key_text(flight_id@))) ==> (r matches Err(
            StoreError::KeyNotFound(k),
        ) && k@ == Item::Text(flight_key_text(flight_id@))) && final(store)@ == old(store)@,
        old(store)@.index.contains_key(Item::Text(flight_key_text(flight_id@))) ==> {
            &&& forall|k: Item| #[trigger] final(store)@.index.contains_key(k) <==> old(store)@.index.contains_key(k)
                && !belongs_to_flight(k, flight_id@)
            &&& r is Ok <==> forall|k: Item| #[trigger] old(store)@.index.contains_key(k) && !belongs_to_flight(k, flight_id@)
                ==> read_at(old(store)@.data, old(store)@.index[k] as int) is Ok
            &&& r is Ok ==> forall|k: Item| !belongs_to_flight(k, flight_id@) ==> #[trigger] read_model(final(store)@, k)
                == read_model(old(store)@, k)
            &&& r is Ok ==> live_total(final(store).entries(), final(store)@.data) == final(store)@.data.len()
            &&& r matches Err(e) ==> (e is InvalidData || e is DataCorruption) && final(store)@.data == old(store)@.data && forall|k: Item|
                #[trigger] final(store)@.index.contains_key(k) ==> final(store)@.index[k] == old(store)@.index[k]
        },
{
    let fk = Key::String(flight_key(flight_id));
    match store.delete(&fk) {
        Ok(()) => {},
        Err(e) => {
            return Err(e);
        },
    }
    let ghost mid = store@;
    let prefix = telem_prefix(flight_id);
    let doomed = keys_with_prefix(store, prefix.as_str());
    let ghost mut removed: Set<Item> = Set::empty();
    let mut i: usize = 0;
    while i < doomed.len()
        invariant
            store.wf(),
            store.base_path() == old(store).base_path(),
            i <= doomed@.len(),
            store@.data == mid.data,
            forall|a: int, b: int| 0 <= a < b < doomed@.len() ==> #[trigger] doomed@[a]@ != #[trigger] doomed@[b]@,
            forall|a: int| 0 <= a < doomed@.len() ==> mid.index.contains_key(#[trigger] doomed@[a]@),
            removed == Set::new(|k: Item| exists|a: int| 0 <= a < i && #[trigger] doomed@[a]@ == k),
            store@.index == mid.index.remove_keys(removed),
        decreases doomed@.len() - i,
    {
        let ghost k = doomed@[i as int]@;
        proof {
            assert(!removed.contains(k)) by {
                if removed.contains(k) {
                    let a = choose|a: int| 0 <= a < i && #[trigger] doomed@[a]@ == k;
                    assert(doomed@[a]@ != doomed@[i as int]@);
                }
            }
            assert(store@.index.contains_key(k));
        }
        let _ = store.delete(&doomed[i]);
        proof {
            let next = Set::new(|q: Item| exists|a: int| 0 <= a < i + 1 && #[trigger] doomed@[a]@ == q);
            assert(next =~= removed.insert(k)) by {
                assert forall|q: Item| next.contains(q) <==> removed.insert(k).contains(q) by {
                    if next.contains(q) {
                        let a = choose|a: int| 0 <= a < i + 1 && #[trigger] doomed@[a]@ == q;
                        if a < i {
                            assert(removed.contains(q));
                        }
                    }
                    if removed.contains(q) {
                        let a = choose|a: int| 0 <= a < i && #[trigger] doomed@[a]@ == q;
                        assert(next.contains(q));
                    }
                    if q == k {
                        assert(doomed@[i as int]@ == q);
                    }
                }
            }
            assert(mid.index.remove_keys(removed.insert(k)) =~= mid.index.remove_keys(removed).remove(k));
            removed = next;
        }
        i = i + 1;
    }
    proof {
        assert forall|q: Item| #[trigger] store@.index.contains_key(q) <==> old(store)@.index.contains_key(q)
            && !belongs_to_flight(q, flight_id@) by {
            if mid.index.contains_key(q) && has_prefix(q, telem_prefix_text(flight_id@)) {
                let a = choose|a: int| 0 <= a < doomed@.len() && #[trigger] doomed@[a]@ == q;
                assert(removed.contains(q));
            }
            if removed.contains(q) {
                let a = choose|a: int| 0 <= a < i && #[trigger] doomed@[a]@ == q;
                assert(has_prefix(doomed@[a]@, prefix@));
            }
        }
        store.lemma_entries_readable_iff();
        assert forall|q: Item| #[trigger] store@.index.contains_key(q) implies store@.index[q] == old(store)@.index[q] by {
            assert(mid.index.contains_key(q));
        }
        assert(all_readable(store@) <==> forall|q: Item| #[trigger] old(store)@.index.contains_key(q)
            && !belongs_to_flight(q, flight_id@) ==> read_at(old(store)@.data, old(store)@.index[q] as int) is Ok) by {
            if all_readable(store@) {
                assert forall|q: Item| #[trigger] old(store)@.index.contains_key(q) && !belongs_to_flight(q, flight_id@)
                    implies read_at(old(store)@.data, old(store)@.index[q] as int) is Ok by {
                    assert(store@.index.contains_key(q));
                }
            }
        }
    }
    let ghost pre = store@;
    let res = store.compact();
    proof {
        if res is Ok {
            assert forall|q: Item| !belongs_to_flight(q, flight_id@) implies #[trigger] read_model(store@, q)
                == read_model(old(store)@, q) by {
                assert(read_model(store@, q) == read_model(pre, q));
                if pre.index.contains_key(q) {
                    assert(pre.index[q] == old(store)@.index[q]);
                }
            }
            assert forall|q: Item| #[trigger] store@.index.contains_key(q) <==> old(store)@.index.contains_key(q)
                && !belongs_to_flight(q, flight_id@) by {
                assert(store@.index.dom().contains(q) == pre.index.dom().contains(q));
            }
        }
    }
    match res {
        Ok(_) => Ok(()),
        Err(e) => Err(e),
    }
}

/// The counters and status of a flight's metadata record.
pub struct FlightSummary {
    pub flight_id: String,
    pub start_time: u64,
    pub end_time: u64,
    pub duration_secs: u64,
    pub packet_count: usize,
    pub ended_normally: bool,
    pub current_status: String,
}

impl FlightSummary {
    /// The summary of a flight opened at `timestamp` in phase `status`.
    pub fn begin(flight_id: String, timestamp: u64, status: &str) -> (r: FlightSummary)
        ensures
            r.flight_id@ == flight_id@,
            r.start_time == timestamp,
            r.end_time == timestamp,
            r.duration_secs == 0,
            r.packet_count == 0,
            r.ended_normally,
            r.current_status@ == status@,
    {
        FlightSummary {
            flight_id,
            start_time: timestamp,
            end_time: timestamp,
            duration_secs: 0,
            packet_count: 0,
            ended_normally: true,
            current_status: String::from_str(status),
        }
    }

    /// Counts a frame recorded at `timestamp` in phase `status`. The end time
    /// becomes the frame's timestamp, held at the start time for a frame older
    /// than the flight's start; the duration is whole seconds from start to end.
    pub fn record(&mut self, timestamp: u64, status: &str)
        ensures
            final(self).flight_id == old(self).flight_id,
            final(self).start_time == old(self).start_time,
            final(self).end_time == (if timestamp >= old(self).start_time { timestamp } else { old(self).start_time }),
            final(self).duration_secs == (final(self).end_time - final(self).start_time) / 1000,
            final(self).end_time >= final(self).start_time,
            final(self).packet_count == (if old(self).packet_count == usize::MAX { usize::MAX } else { (old(self).packet_count + 1) as usize }),
            final(self).ended_normally == old(self).ended_normally,
            final(self).current_status@ == status@,
    {
        self.end_time = if timestamp >= self.start_time { timestamp } else { self.start_time };
        let elapsed = self.end_time - self.start_time;
        self.duration_secs = elapsed / 1000;
        if self.packet_count < usize::MAX {
            self.packet_count = self.packet_count + 1;
        }
        self.current_status = String::from_str(status);
    }

    /// Marks the flight as closed by a confirmed landing.
    pub fn land(&mut self)
        ensures
            final(self).flight_id == old(self).flight_id,
            final(self).start_time == old(self).start_time,
            final(self).end_time == old(self).end_time,
            final(self).duration_secs == old(self).duration_secs,
            final(self).packet_count == old(self).packet_count,
            final(self).ended_normally == old(self).ended_normally,
            final(self).current_status@ == "Landed"@,
    {
        self.current_status = String::from_str("Landed");
    }

    /// Marks the flight as cut off by a silent stream.
    pub fn abort(&mut self)
        ensures
            final(self).flight_id == old(self).flight_id,
            final(self).start_time == old(self).start_time,
            final(self).end_time == old(self).end_time,
            final(self).duration_secs == old(self).duration_secs,
            final(self).packet_count == old(self).packet_count,
            !final(self).ended_normally,
            final(self).current_status == old(self).current_status,
    {
        self.ended_normally = false;
    }
}

/// The metadata key of the flight that a take-off opens is not yet in the
/// store: the number one past the largest stored one names no stored flight.
pub proof fn lemma_new_flight_key_is_fresh(m: LogModel, mx: usize)
    requires
        is_max_flight_number(m, mx),
        mx < usize::MAX,
    ensures
        !m.index.contains_key(Item::Text(flight_key_text(flight_id_text(after(mx) as nat)))),
{
    let n = after(mx);
    let k = Item::Text(flight_key_text(flight_id_text(n as nat)));
    let cs = flight_key_text(flight_id_text(n as nat));
    reveal_strlit("flight:");
    reveal_strlit("flight_");
    reveal_strlit("flight:flight_");
    assert(cs =~= flight_number_prefix() + padded3(n as nat));
    assert(flight_number_prefix().is_prefix_of(cs));
    assert(cs.subrange(flight_number_prefix().len() as int, cs.len() as int) =~= padded3(n as nat));
    lemma_padded_parses(n);
    assert(flight_number_of(k) == Some(n));
}

} // verus!
