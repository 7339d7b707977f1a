//! Operator model: a seen / acknowledged / stale registry over the signals put
//! in front of a human operator, and the one decision it feeds — don't
//! re-notify what is already acknowledged.
//!
//! The event log is append-only; timestamps are handed in rather than read
//! from a clock, so folds and decisions are deterministic. The model degrades
//! honestly: an acknowledgement of a never-surfaced signal is dropped, an
//! unreadable timestamp never makes a signal stale, and an unacknowledged
//! signal always notifies.

use vstd::prelude::*;
use crate::keymap::KeyMap;
use crate::forecast::{canonical_utc, civil_day_number, digit, epoch_of, is_canonical_utc};
use crate::text::{chars_of, string_from_chars, owned};

verus! {

/// One entry of the operator-model log. `signal_id` joins the two kinds.
#[derive(Debug, Clone, PartialEq, Eq)]
pub enum OperatorEvent {
    /// A signal was put in front of the operator. Surfacing the same id again
    /// is a fresh occurrence: any earlier acknowledgement no longer applies.
    Surfaced {
        signal_id: String,
        /// Producer category, e.g. `presence-snapshot`; carried verbatim.
        kind: String,
        surfaced_at: String,
        /// Time-to-live in seconds; `None` never goes stale on its own.
        ttl_secs: Option<u64>,
    },
    /// The operator acknowledged a signal.
    Acknowledged { signal_id: String, acknowledged_at: String },
}

/// The log entry as plain values.
pub enum OperatorEventView {
    Surfaced { signal_id: Seq<char>, kind: Seq<char>, surfaced_at: Seq<char>, ttl_secs: Option<u64> },
    Acknowledged { signal_id: Seq<char>, acknowledged_at: Seq<char> },
}

impl View for OperatorEvent {
    type V = OperatorEventView;

    open spec fn view(&self) -> OperatorEventView {
        match self {
            OperatorEvent::Surfaced { signal_id, kind, surfaced_at, ttl_secs } =>
                OperatorEventView::Surfaced {
                    signal_id: signal_id@,
                    kind: kind@,
                    surfaced_at: surfaced_at@,
                    ttl_secs: *ttl_secs,
                },
            OperatorEvent::Acknowledged { signal_id, acknowledged_at } =>
                OperatorEventView::Acknowledged {
                    signal_id: signal_id@,
                    acknowledged_at: acknowledged_at@,
                },
        }
    }
}

impl OperatorEventView {
    pub open spec fn signal_id(self) -> Seq<char> {
        match self {
            OperatorEventView::Surfaced { signal_id, .. } => signal_id,
            OperatorEventView::Acknowledged { signal_id, .. } => signal_id,
        }
    }

    pub open spec fn timestamp(self) -> Seq<char> {
        match self {
            OperatorEventView::Surfaced { surfaced_at, .. } => surfaced_at,
            OperatorEventView::Acknowledged { acknowledged_at, .. } => acknowledged_at,
        }
    }
}

impl OperatorEvent {
    /// The signal this event is about.
    pub fn signal_id(&self) -> (r: &str)
        ensures
            r@ == self@.signal_id(),
    {
        match self {
            OperatorEvent::Surfaced { signal_id, .. } => signal_id.as_str(),
            OperatorEvent::Acknowledged { signal_id, .. } => signal_id.as_str(),
        }
    }

    /// The event's own timestamp (the ledger day file is named after it).
    pub fn timestamp(&self) -> (r: &str)
        ensures
            r@ == self@.timestamp(),
    {
        match self {
            OperatorEvent::Surfaced { surfaced_at, .. } => surfaced_at.as_str(),
            OperatorEvent::Acknowledged { acknowledged_at, .. } => acknowledged_at.as_str(),
        }
    }
}

/// Current registry state of one signal, folded from the log.
#[derive(Debug, Clone, PartialEq, Eq)]
pub struct SignalState {
    pub kind: String,
    /// Timestamp of the most recent surfacing.
    pub surfaced_at: String,
    /// Set once the operator acknowledged the current surfacing.
    pub acknowledged_at: Option<String>,
    pub ttl_secs: Option<u64>,
}

/// A signal's state as plain values.
pub struct SignalStateView {
    pub kind: Seq<char>,
    pub surfaced_at: Seq<char>,
    pub acknowledged_at: Option<Seq<char>>,
    pub ttl_secs: Option<u64>,
}

pub open spec fn opt_view(o: Option<String>) -> Option<Seq<char>> {
    match o {
        Some(s) => Some(s@),
        None => None,
    }
}

impl View for SignalState {
    type V = SignalStateView;

    open spec fn view(&self) -> SignalStateView {
        SignalStateView {
            kind: self.kind@,
            surfaced_at: self.surfaced_at@,
            acknowledged_at: opt_view(self.acknowledged_at),
            ttl_secs: self.ttl_secs,
        }
    }
}

/// The registry the log folds to, applying its events in order: a surfacing
/// (re)initialises the signal with no acknowledgement; an acknowledgement
/// stamps a present signal and is dropped for an absent one.
pub open spec fn fold_log(events: Seq<OperatorEventView>) -> Map<Seq<char>, SignalStateView>
    decreases events.len(),
{
    if events.len() == 0 {
        Map::empty()
    } else {
        let before = fold_log(events.drop_last());
        match events.last() {
            OperatorEventView::Surfaced { signal_id, kind, surfaced_at, ttl_secs } => before.insert(
                signal_id,
                SignalStateView { kind, surfaced_at, acknowledged_at: None, ttl_secs },
            ),
            OperatorEventView::Acknowledged { signal_id, acknowledged_at } => if before.contains_key(
                signal_id,
            ) {
                let s = before[signal_id];
                before.insert(
                    signal_id,
                    SignalStateView {
                        kind: s.kind,
                        surfaced_at: s.surfaced_at,
                        acknowledged_at: Some(acknowledged_at),
                        ttl_secs: s.ttl_secs,
                    },
                )
            } else {
                before
            },
        }
    }
}

pub open spec fn events_view(events: Seq<OperatorEvent>) -> Seq<OperatorEventView> {
    events.map_values(|e: OperatorEvent| e@)
}

pub open spec fn registry_view(m: Map<Seq<char>, SignalState>) -> Map<Seq<char>, SignalStateView> {
    m.map_values(|s: SignalState| s@)
}

fn clone_opt_string(o: &Option<String>) -> (r: Option<String>)
    ensures
        opt_view(r) == opt_view(*o),
{
    match o {
        Some(s) => Some(s.clone()),
        None => None,
    }
}

fn clone_state(s: &SignalState) -> (r: SignalState)
    ensures
        r@ == s@,
{
    SignalState {
        kind: s.kind.clone(),
        surfaced_at: s.surfaced_at.clone(),
        acknowledged_at: clone_opt_string(&s.acknowledged_at),
        ttl_secs: s.ttl_secs,
    }
}

/// Fold the ordered event log into per-signal current state, keyed by
/// signal id in ascending order.
pub fn state(events: &[OperatorEvent]) -> (r: KeyMap<SignalState>)
    ensures
        r.wf(),
        registry_view(r.map_view()) == fold_log(events_view(events@)),
{
    let mut out: KeyMap<SignalState> = KeyMap::new();
    let mut i: usize = 0;
    while i < events.len()
        invariant
            i <= events@.len(),
            out.wf(),
            registry_view(out.map_view()) == fold_log(events_view(events@.take(i as int))),
        decreases events@.len() - i,
    {
        let ghost before = out.map_view();
        proof {
            assert(events_view(events@.take(i + 1)).drop_last() =~= events_view(
                events@.take(i as int),
            ));
            assert(events_view(events@.take(i + 1)).last() == events@[i as int]@);
        }
        match &events[i] {
            OperatorEvent::Surfaced { signal_id, kind, surfaced_at, ttl_secs } => {
                let st = SignalState {
                    kind: kind.clone(),
                    surfaced_at: surfaced_at.clone(),
                    acknowledged_at: None,
                    ttl_secs: *ttl_secs,
                };
                out.insert(signal_id.clone(), st);
                proof {
                    assert(registry_view(out.map_view()) =~= registry_view(before).insert(
                        signal_id@,
                        st@,
                    ));
                }
            },
            OperatorEvent::Acknowledged { signal_id, acknowledged_at } => {
                match out.find(signal_id.as_str()) {
                    Some(idx) => {
                        let cur = out.value_at(idx);
                        let st = SignalState {
                            kind: cur.kind.clone(),
                            surfaced_at: cur.surfaced_at.clone(),
                            acknowledged_at: Some(acknowledged_at.clone()),
                            ttl_secs: cur.ttl_secs,
                        };
                        out.set_value(idx, st);
                        proof {
                            assert(registry_view(out.map_view()) =~= registry_view(before).insert(
                                signal_id@,
                                st@,
                            ));
                        }
                    },
                    None => {},
                }
            },
        }
        i = i + 1;
    }
    proof {
        assert(events@.take(events@.len() as int) =~= events@);
    }
    out
}

/// The re-notify decision: `false` exactly when the signal has been
/// acknowledged. `now` is accepted so one decision site can hand the same
/// instant to both decisions; this rule does not depend on it.
pub fn should_notify(state: &SignalState, now: &str) -> (r: bool)
    ensures
        r == (state.acknowledged_at is None),
{
    state.acknowledged_at.is_none()
}

/// `ttl` reinterpreted as a signed 64-bit count (two's complement).
pub open spec fn ttl_as_signed(ttl: u64) -> int {
    if ttl <= 0x7fff_ffff_ffff_ffff {
        ttl as int
    } else {
        ttl as int - 0x1_0000_0000_0000_0000
    }
}

/// `x` clamped to the signed 64-bit range.
pub open spec fn clamp_i64(x: int) -> int {
    if x > i64::MAX {
        i64::MAX as int
    } else if x < i64::MIN {
        i64::MIN as int
    } else {
        x
    }
}

/// Stale: unacknowledged, with a TTL, both timestamps readable, and `now`
/// strictly past `surfaced_at + ttl` (the sum saturating at the 64-bit range).
pub open spec fn stale(s: SignalStateView, now: Seq<char>) -> bool {
    &&& s.acknowledged_at is None
    &&& s.ttl_secs is Some
    &&& canonical_utc(s.surfaced_at)
    &&& canonical_utc(now)
    &&& epoch_of(now) > clamp_i64(epoch_of(s.surfaced_at) + ttl_as_signed(s.ttl_secs->0))
}

/// Whether a signal is stale: unacknowledged and past its TTL deadline. A
/// missing TTL, an acknowledgement, or an unreadable timestamp all answer
/// `false` — staleness that cannot be verified is not declared.
pub fn is_stale(state: &SignalState, now: &str) -> (r: bool)
    ensures
        r == stale(state@, now@),
{
    if state.acknowledged_at.is_some() {
        return false;
    }
    let ttl = match state.ttl_secs {
        Some(t) => t,
        None => {
            return false;
        },
    };
    let surfaced = match parse_utc_to_epoch(state.surfaced_at.as_str()) {
        Some(t) => t,
        None => {
            return false;
        },
    };
    let now_epoch = match parse_utc_to_epoch(now) {
        Some(t) => t,
        None => {
            return false;
        },
    };
    let signed: i64 = if ttl <= 0x7fff_ffff_ffff_ffff {
        ttl as i64
    } else {
        -((0xffff_ffff_ffff_ffffu64 - ttl) as i64) - 1
    };
    let deadline: i64 = if signed >= 0 {
        if surfaced > i64::MAX - signed {
            i64::MAX
        } else {
            surfaced + signed
        }
    } else {
        if surfaced < i64::MIN - signed {
            i64::MIN
        } else {
            surfaced + signed
        }
    };
    now_epoch > deadline
}

/// Days from 1970-01-01 to `(y, m, d)`, by Howard Hinnant's era
/// decomposition.
fn days_from_civil(y: i64, m: u32, d: u32) -> (r: i64)
    requires
        0 <= y <= 9999,
        1 <= m <= 12,
        1 <= d <= 31,
    ensures
        r == civil_day_number(y as int, m as int, d as int),
{
    let y = if m <= 2 { y - 1 } else { y };
    let era = (if y >= 0 { y } else { y - 399 }) / 400;
    let yoe = y - era * 400;
    let mp = (if m > 2 { m - 3 } else { m + 9 }) as i64;
    let doy = (153 * mp + 2) / 5 + d as i64 - 1;
    let doe = yoe * 365 + yoe / 4 - yoe / 100 + doy;
    proof {
        assert(era == y / 400);
        assert(0 <= yoe < 400);
        assert(y / 4 == era * 100 + yoe / 4);
        assert(y / 100 == era * 4 + yoe / 100);
    }
    era * 146_097 + doe - 719_468
}

/// Seconds since the Unix epoch for a canonical timestamp; `None` for any
/// other input, so callers degrade instead of failing.
pub fn parse_utc_to_epoch(ts: &str) -> (r: Option<i64>)
    ensures
        match r {
            Some(t) => canonical_utc(ts@) && t == epoch_of(ts@),
            None => !canonical_utc(ts@),
        },
{
    if !is_canonical_utc(ts) {
        return None;
    }
    let cs = chars_of(ts);
    let year = (digit(cs[0]) * 1000 + digit(cs[1]) * 100 + digit(cs[2]) * 10 + digit(cs[3])) as i64;
    let month = digit(cs[5]) * 10 + digit(cs[6]);
    let day = digit(cs[8]) * 10 + digit(cs[9]);
    let hour = (digit(cs[11]) * 10 + digit(cs[12])) as i64;
    let minute = (digit(cs[14]) * 10 + digit(cs[15])) as i64;
    let second = (digit(cs[17]) * 10 + digit(cs[18])) as i64;
    let days = days_from_civil(year, month, day);
    Some(days * 86_400 + hour * 3600 + minute * 60 + second)
}

/// One signal's folded state plus both decisions.
#[derive(Debug, Clone, PartialEq, Eq)]
pub struct SignalStatus {
    pub state: SignalState,
    pub should_notify: bool,
    pub is_stale: bool,
}

/// Fold the log and evaluate both decisions for every signal at `now`.
pub fn status_report(events: &[OperatorEvent], now: &str) -> (r: KeyMap<SignalStatus>)
    ensures
        r.wf(),
        r.map_view().dom() == fold_log(events_view(events@)).dom(),
        forall|k: Seq<char>|
            #[trigger] r.map_view().contains_key(k) ==> {
                let s = fold_log(events_view(events@))[k];
                let st = r.map_view()[k];
                &&& st.state@ == s
                &&& st.should_notify == (s.acknowledged_at is None)
                &&& st.is_stale == stale(s, now@)
            },
{
    let folded = state(events);
    let mut out: KeyMap<SignalStatus> = KeyMap::new();
    let n = folded.len();
    let mut i: usize = 0;
    proof {
        crate::keymap::lemma_entries_map(folded.entry_seq());
    }
    while i < n
        invariant
            n == folded.entry_seq().len(),
            folded.wf(),
            i <= n,
            out.wf(),
            forall|k: Seq<char>|
                #[trigger] out.map_view().contains_key(k) <==> exists|j: int|
                    0 <= j < i && #[trigger] folded.entry_seq()[j].0 == k,
            forall|k: Seq<char>|
                #[trigger] out.map_view().contains_key(k) ==> folded.map_view().contains_key(k)
                    && out.map_view()[k].state@ == folded.map_view()[k]@
                    && out.map_view()[k].should_notify == (folded.map_view()[k].acknowledged_at is None)
                    && out.map_view()[k].is_stale == stale(folded.map_view()[k]@, now@),
        decreases n - i,
    {
        let key = folded.key_at(i);
        let s = folded.value_at(i);
        let notify = should_notify(s, now);
        let stale_now = is_stale(s, now);
        let status = SignalStatus { state: clone_state(s), should_notify: notify, is_stale: stale_now };
        let ghost before = out.map_view();
        proof {
            crate::keymap::lemma_entries_map(folded.entry_seq());
        }
        out.insert(key.clone(), status);
        proof {
            assert(folded.map_view().contains_key(folded.entry_seq()[i as int].0));
            assert(folded.map_view()[key@] == *s);
            assert forall|k: Seq<char>| #[trigger] out.map_view().contains_key(k) implies folded.map_view().contains_key(k)
                && out.map_view()[k].state@ == folded.map_view()[k]@
                && out.map_view()[k].should_notify == (folded.map_view()[k].acknowledged_at is None)
                && out.map_view()[k].is_stale == stale(folded.map_view()[k]@, now@) by {
                if k != key@ {
                    assert(before.contains_key(k));
                }
            }
            assert forall|k: Seq<char>| #[trigger] out.map_view().contains_key(k) <==> exists|j: int|
                0 <= j < i + 1 && #[trigger] folded.entry_seq()[j].0 == k by {
                if out.map_view().contains_key(k) && k != key@ {
                    assert(before.contains_key(k));
                }
                if exists|j: int| 0 <= j < i + 1 && #[trigger] folded.entry_seq()[j].0 == k {
                    let j = choose|j: int| 0 <= j < i + 1 && #[trigger] folded.entry_seq()[j].0 == k;
                    if j < i {
                        assert(before.contains_key(k));
                    }
                }
            }
        }
        i = i + 1;
    }
    proof {
        assert forall|k: Seq<char>| #[trigger] out.map_view().contains_key(k) <==> folded.map_view().contains_key(k) by {
            if folded.map_view().contains_key(k) {
                let j = choose|j: int| 0 <= j < n && #[trigger] folded.entry_seq()[j].0 == k;
                assert(out.map_view().contains_key(folded.entry_seq()[j].0));
            }
        }
        assert(out.map_view().dom() =~= fold_log(events_view(events@)).dom());
    }
    out
}

/// The ledger day-file name for an event (`YYYY-MM-DD.jsonl`, after the
/// event's own date), or `None` when its timestamp is not canonical UTC —
/// such an event is refused at the write boundary.
pub fn ledger_file_name(event: &OperatorEvent) -> (r: Option<String>)
    ensures
        match r {
            Some(name) => canonical_utc(event@.timestamp()) && name@ == event@.timestamp().take(
                10,
            ) + seq!['.', 'j', 's', 'o', 'n', 'l'],
            None => !canonical_utc(event@.timestamp()),
        },
{
    crate::forecast::day_file_name(event.timestamp())
}

} // verus!

verus! {

/// A signal is in the registry exactly when some event in the log surfaced
/// it: acknowledgements never create a signal.
pub proof fn law_registry_holds_exactly_the_surfaced_signals(
    events: Seq<OperatorEventView>,
    id: Seq<char>,
)
    ensures
        fold_log(events).contains_key(id) <==> exists|i: int|
            0 <= i < events.len() && (#[trigger] events[i]) is Surfaced && events[i].signal_id()
                == id,
    decreases events.len(),
{
    if events.len() > 0 {
        let prev = events.drop_last();
        law_registry_holds_exactly_the_surfaced_signals(prev, id);
        if exists|i: int|
            0 <= i < prev.len() && (#[trigger] prev[i]) is Surfaced && prev[i].signal_id() == id {
            let i = choose|i: int|
                0 <= i < prev.len() && (#[trigger] prev[i]) is Surfaced && prev[i].signal_id()
                    == id;
            assert(events[i] == prev[i]);
        }
        if exists|i: int|
            0 <= i < events.len() && (#[trigger] events[i]) is Surfaced && events[i].signal_id()
                == id {
            let i = choose|i: int|
                0 <= i < events.len() && (#[trigger] events[i]) is Surfaced
                    && events[i].signal_id() == id;
            if i < events.len() - 1 {
                assert(prev[i] == events[i]);
            }
        }
    }
}

/// Surfacing a signal (again) makes it a fresh occurrence: its state is the
/// new surfacing with no acknowledgement, whatever came before, and no other
/// signal changes.
pub proof fn law_surfacing_resets_the_signal(
    events: Seq<OperatorEventView>,
    id: Seq<char>,
    kind: Seq<char>,
    at: Seq<char>,
    ttl: Option<u64>,
)
    ensures
        ({
            let after = fold_log(
                events.push(
                    OperatorEventView::Surfaced {
                        signal_id: id,
                        kind: kind,
                        surfaced_at: at,
                        ttl_secs: ttl,
                    },
                ),
            );
            &&& after.contains_key(id)
            &&& after[id] == SignalStateView {
                kind: kind,
                surfaced_at: at,
                acknowledged_at: None,
                ttl_secs: ttl,
            }
            &&& forall|k: Seq<char>|
                k != id ==> (#[trigger] after.contains_key(k) == fold_log(events).contains_key(k)
                    && (after.contains_key(k) ==> after[k] == fold_log(events)[k]))
        }),
{
    let e = OperatorEventView::Surfaced { signal_id: id, kind: kind, surfaced_at: at, ttl_secs: ttl };
    assert(events.push(e).drop_last() =~= events);
}

/// Acknowledging a surfaced signal stamps it — so it stops notifying — and
/// keeps its surfacing; acknowledging a signal that was never surfaced leaves
/// the registry unchanged.
pub proof fn law_acknowledgement_stamps_or_is_dropped(
    events: Seq<OperatorEventView>,
    id: Seq<char>,
    at: Seq<char>,
)
    ensures
        ({
            let before = fold_log(events);
            let after = fold_log(
                events.push(OperatorEventView::Acknowledged { signal_id: id, acknowledged_at: at }),
            );
            &&& before.contains_key(id) ==> after.contains_key(id) && after[id]
                == SignalStateView {
                kind: before[id].kind,
                surfaced_at: before[id].surfaced_at,
                acknowledged_at: Some(at),
                ttl_secs: before[id].ttl_secs,
            }
            &&& !before.contains_key(id) ==> after == before
        }),
{
    let e = OperatorEventView::Acknowledged { signal_id: id, acknowledged_at: at };
    assert(events.push(e).drop_last() =~= events);
}

/// A stale signal is always one to notify about: staleness requires the
/// acknowledgement that would silence the notification to be missing.
pub proof fn law_stale_signals_still_notify(s: SignalStateView, now: Seq<char>)
    ensures
        stale(s, now) ==> s.acknowledged_at is None,
{
}

/// Staleness only grows with time: a signal stale at one instant is stale at
/// every later readable instant.
pub proof fn law_staleness_persists(s: SignalStateView, now: Seq<char>, later: Seq<char>)
    requires
        canonical_utc(later),
        epoch_of(now) <= epoch_of(later),
    ensures
        stale(s, now) ==> stale(s, later),
{
}

} // verus!
