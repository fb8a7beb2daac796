//! The room registry: the one store of room data, keyed by room id, into
//! which every round-trip's room deltas are merged.
use vstd::prelude::*;
use crate::sync::{
    opt_string_view, raw_events_view, state_events_view, InvitedRoom, JoinedRoom, LeftRoom,
    RawEvent, Rooms, StateEvent, Timeline, UnreadNotificationsCount,
};

verus! {

/// Which of the three partitions a room is in; a room is in exactly one.
#[derive(Clone, Copy, Debug, PartialEq, Eq, Structural)]
pub enum RoomKind {
    Joined,
    Invited,
    Left,
}

pub type RawView = (Seq<char>, Seq<char>);

pub type StateView = (Seq<char>, Seq<char>, Seq<char>);

/// A timeline delta: its limited flag, its pagination token, its events.
pub type TimelineView = (bool, Option<Seq<char>>, Seq<RawView>);

pub open spec fn timeline_view(t: Timeline) -> TimelineView {
    (t.limited, opt_string_view(t.prev_batch), raw_events_view(t.events@))
}

/// What the registry knows of one room.
pub struct RoomView {
    pub id: Seq<char>,
    pub kind: RoomKind,
    pub limited: bool,
    pub prev_batch: Option<Seq<char>>,
    pub timeline: Seq<RawView>,
    pub state: Seq<StateView>,
    pub unread: UnreadNotificationsCount,
    pub account_data: Seq<RawView>,
    pub ephemeral: Seq<RawView>,
}

/// One room delta of a response, whatever its kind.
pub struct DeltaView {
    pub kind: RoomKind,
    pub timeline: Option<TimelineView>,
    pub state: Seq<StateView>,
    pub unread: Option<UnreadNotificationsCount>,
    pub account_data: Seq<RawView>,
    pub ephemeral: Option<Seq<RawView>>,
}

pub open spec fn joined_delta(d: JoinedRoom) -> DeltaView {
    DeltaView {
        kind: RoomKind::Joined,
        timeline: Some(timeline_view(d.timeline)),
        state: state_events_view(d.state@),
        unread: Some(d.unread_notifications),
        account_data: raw_events_view(d.account_data@),
        ephemeral: Some(raw_events_view(d.ephemeral@)),
    }
}

pub open spec fn left_delta(d: LeftRoom) -> DeltaView {
    DeltaView {
        kind: RoomKind::Left,
        timeline: Some(timeline_view(d.timeline)),
        state: state_events_view(d.state@),
        unread: None,
        account_data: raw_events_view(d.account_data@),
        ephemeral: None,
    }
}

pub open spec fn invited_delta(d: InvitedRoom) -> DeltaView {
    DeltaView {
        kind: RoomKind::Invited,
        timeline: None,
        state: state_events_view(d.invite_state@),
        unread: None,
        account_data: seq![],
        ephemeral: None,
    }
}

/// Every delta of a response, in the order they are merged: joined rooms,
/// then left ones, then invites.
pub open spec fn rooms_deltas(r: Rooms) -> Seq<(Seq<char>, DeltaView)> {
    r.join@.map_values(|p: (String, JoinedRoom)| (p.0@, joined_delta(p.1)))
        + r.leave@.map_values(|p: (String, LeftRoom)| (p.0@, left_delta(p.1)))
        + r.invite@.map_values(|p: (String, InvitedRoom)| (p.0@, invited_delta(p.1)))
}

pub open spec fn state_keys_unique(s: Seq<StateView>) -> bool {
    forall|i: int, j: int|
        0 <= i < s.len() && 0 <= j < s.len() && i != j ==> (#[trigger] s[i]).0 != (#[trigger] s[j]).0
            || s[i].1 != s[j].1
}

pub open spec fn raw_keys_unique(s: Seq<RawView>) -> bool {
    forall|i: int, j: int|
        0 <= i < s.len() && 0 <= j < s.len() && i != j ==> (#[trigger] s[i]).0 != (#[trigger] s[j]).0
}

/// The state with `e` written in: it replaces the event of the same type
/// and state key, or is added after the others.
pub open spec fn upsert_state(s: Seq<StateView>, e: StateView) -> Seq<StateView> {
    if exists|j: int| 0 <= j < s.len() && (#[trigger] s[j]).0 == e.0 && s[j].1 == e.1 {
        let j = choose|j: int| 0 <= j < s.len() && (#[trigger] s[j]).0 == e.0 && s[j].1 == e.1;
        s.update(j, e)
    } else {
        s.push(e)
    }
}

/// The events with `e` written in: it replaces the event of the same type,
/// or is added after the others.
pub open spec fn upsert_raw(s: Seq<RawView>, e: RawView) -> Seq<RawView> {
    if exists|j: int| 0 <= j < s.len() && (#[trigger] s[j]).0 == e.0 {
        let j = choose|j: int| 0 <= j < s.len() && (#[trigger] s[j]).0 == e.0;
        s.update(j, e)
    } else {
        s.push(e)
    }
}

/// Last write wins, keyed by event type and state key.
pub open spec fn merge_state(s: Seq<StateView>, es: Seq<StateView>) -> Seq<StateView>
    decreases es.len(),
{
    if es.len() == 0 {
        s
    } else {
        upsert_state(merge_state(s, es.drop_last()), es.last())
    }
}

/// Last write wins, keyed by event type.
pub open spec fn merge_raw(s: Seq<RawView>, es: Seq<RawView>) -> Seq<RawView>
    decreases es.len(),
{
    if es.len() == 0 {
        s
    } else {
        upsert_raw(merge_raw(s, es.drop_last()), es.last())
    }
}

/// A room as it is first seen: joined, with nothing in it.
pub open spec fn new_room(id: Seq<char>) -> RoomView {
    RoomView {
        id,
        kind: RoomKind::Joined,
        limited: false,
        prev_batch: None,
        timeline: seq![],
        state: seq![],
        unread: UnreadNotificationsCount { highlight_count: 0, notification_count: 0 },
        account_data: seq![],
        ephemeral: seq![],
    }
}

/// A room with a delta merged in. A limited timeline replaces the cached
/// one, any other is appended to it; state and account data merge with the
/// last write winning; unread counts and ephemeral events are replaced.
pub open spec fn merge_room(r: RoomView, d: DeltaView) -> RoomView {
    let r1 = match d.timeline {
        Some(t) => RoomView {
            limited: t.0,
            prev_batch: if t.0 || r.prev_batch is None { t.1 } else { r.prev_batch },
            timeline: if t.0 { t.2 } else { r.timeline + t.2 },
            ..r
        },
        None => r,
    };
    RoomView {
        kind: d.kind,
        state: merge_state(r1.state, d.state),
        unread: match d.unread { Some(u) => u, None => r1.unread },
        account_data: merge_raw(r1.account_data, d.account_data),
        ephemeral: match d.ephemeral { Some(e) => e, None => r1.ephemeral },
        ..r1
    }
}

pub open spec fn has_room(rs: Seq<RoomView>, id: Seq<char>) -> bool {
    exists|j: int| 0 <= j < rs.len() && (#[trigger] rs[j]).id == id
}

pub open spec fn room_index(rs: Seq<RoomView>, id: Seq<char>) -> int {
    choose|j: int| 0 <= j < rs.len() && (#[trigger] rs[j]).id == id
}

/// The registry with one delta merged into the room it names, which is
/// created, after the others, if it is not there yet.
pub open spec fn apply_delta(rs: Seq<RoomView>, id: Seq<char>, d: DeltaView) -> Seq<RoomView> {
    if has_room(rs, id) {
        rs.update(room_index(rs, id), merge_room(rs[room_index(rs, id)], d))
    } else {
        rs.push(merge_room(new_room(id), d))
    }
}

pub open spec fn apply_deltas(rs: Seq<RoomView>, ds: Seq<(Seq<char>, DeltaView)>) -> Seq<RoomView>
    decreases ds.len(),
{
    if ds.len() == 0 {
        rs
    } else {
        apply_delta(apply_deltas(rs, ds.drop_last()), ds.last().0, ds.last().1)
    }
}

/// The registry with a room of this id, created empty if it was missing.
pub open spec fn ensure_room(rs: Seq<RoomView>, id: Seq<char>) -> Seq<RoomView> {
    if has_room(rs, id) {
        rs
    } else {
        rs.push(new_room(id))
    }
}

pub open spec fn ids_unique(rs: Seq<RoomView>) -> bool {
    forall|i: int, j: int|
        0 <= i < rs.len() && 0 <= j < rs.len() && i != j ==> (#[trigger] rs[i]).id != (#[trigger] rs[j]).id
}

impl RoomView {
    pub open spec fn wf(self) -> bool {
        state_keys_unique(self.state) && raw_keys_unique(self.account_data)
    }
}

pub open spec fn registry_wf(rs: Seq<RoomView>) -> bool {
    ids_unique(rs) && forall|i: int| 0 <= i < rs.len() ==> (#[trigger] rs[i]).wf()
}

/// A room that the registry holds.
#[derive(Debug)]
pub struct Room {
    pub room_id: String,
    pub kind: RoomKind,
    /// Whether the cached timeline starts after a gap.
    pub limited: bool,
    pub prev_batch: Option<String>,
    pub timeline: Vec<RawEvent>,
    /// The latest state, one event per event type and state key.
    pub state: Vec<StateEvent>,
    pub unread_notifications: UnreadNotificationsCount,
    /// The room's account data, one event per event type.
    pub account_data: Vec<RawEvent>,
    pub ephemeral: Vec<RawEvent>,
}

impl View for Room {
    type V = RoomView;

    open spec fn view(&self) -> RoomView {
        RoomView {
            id: self.room_id@,
            kind: self.kind,
            limited: self.limited,
            prev_batch: opt_string_view(self.prev_batch),
            timeline: raw_events_view(self.timeline@),
            state: state_events_view(self.state@),
            unread: self.unread_notifications,
            account_data: raw_events_view(self.account_data@),
            ephemeral: raw_events_view(self.ephemeral@),
        }
    }
}

fn clone_raw_events(v: &Vec<RawEvent>) -> (r: Vec<RawEvent>)
    ensures
        raw_events_view(r@) == raw_events_view(v@),
{
    let r = v.clone();
    assert(raw_events_view(r@) =~= raw_events_view(v@));
    r
}

fn clone_opt_string(o: &Option<String>) -> (r: Option<String>)
    ensures
        opt_string_view(r) == opt_string_view(*o),
{
    match o {
        Some(s) => Some(s.clone()),
        None => None,
    }
}

pub(crate) fn append_raw_events(v: &mut Vec<RawEvent>, es: &Vec<RawEvent>)
    ensures
        raw_events_view(final(v)@) == raw_events_view(old(v)@) + raw_events_view(es@),
{
    let ghost before = raw_events_view(v@);
    let mut k: usize = 0;
    while k < es.len()
        invariant
            k <= es.len(),
            raw_events_view(v@) == before + raw_events_view(es@).take(k as int),
        decreases es.len() - k,
    {
        let e = es[k].clone();
        assert(e@ == raw_events_view(es@)[k as int]);
        let ghost prev = raw_events_view(v@);
        v.push(e);
        assert(raw_events_view(v@) =~= prev.push(e@));
        assert(raw_events_view(es@).take(k + 1) =~= raw_events_view(es@).take(k as int).push(e@));
        assert(raw_events_view(v@) =~= before + raw_events_view(es@).take(k + 1));
        k = k + 1;
    }
    assert(raw_events_view(es@).take(k as int) =~= raw_events_view(es@));
}

/// Writes `e` into the state, replacing the event of the same type and key.
fn upsert_state_event(v: &mut Vec<StateEvent>, e: &StateEvent)
    requires
        state_keys_unique(state_events_view(old(v)@)),
    ensures
        state_events_view(final(v)@) == upsert_state(state_events_view(old(v)@), e@),
        state_keys_unique(state_events_view(final(v)@)),
{
    let ghost s = state_events_view(v@);
    let mut i: usize = 0;
    while i < v.len()
        invariant
            i <= v.len(),
            s == state_events_view(v@),
            s == state_events_view(old(v)@),
            state_keys_unique(s),
            forall|k: int| 0 <= k < i ==> !((#[trigger] s[k]).0 == e@.0 && s[k].1 == e@.1),
        decreases v.len() - i,
    {
        if v[i].event_type == e.event_type && v[i].state_key == e.state_key {
            assert(s[i as int].0 == e@.0 && s[i as int].1 == e@.1);
            let ghost j = choose|j: int| 0 <= j < s.len() && (#[trigger] s[j]).0 == e@.0 && s[j].1 == e@.1;
            assert(j == i);
            v.set(i, e.clone());
            assert(state_events_view(v@) =~= s.update(i as int, e@));
            return;
        }
        i = i + 1;
    }
    v.push(e.clone());
    assert(state_events_view(v@) =~= s.push(e@));
}

/// Writes `e` into the events, replacing the event of the same type.
fn upsert_raw_event(v: &mut Vec<RawEvent>, e: &RawEvent)
    requires
        raw_keys_unique(raw_events_view(old(v)@)),
    ensures
        raw_events_view(final(v)@) == upsert_raw(raw_events_view(old(v)@), e@),
        raw_keys_unique(raw_events_view(final(v)@)),
{
    let ghost s = raw_events_view(v@);
    let mut i: usize = 0;
    while i < v.len()
        invariant
            i <= v.len(),
            s == raw_events_view(v@),
            s == raw_events_view(old(v)@),
            raw_keys_unique(s),
            forall|k: int| 0 <= k < i ==> (#[trigger] s[k]).0 != e@.0,
        decreases v.len() - i,
    {
        if v[i].event_type == e.event_type {
            assert(s[i as int].0 == e@.0);
            let ghost j = choose|j: int| 0 <= j < s.len() && (#[trigger] s[j]).0 == e@.0;
            assert(j == i);
            v.set(i, e.clone());
            assert(raw_events_view(v@) =~= s.update(i as int, e@));
            return;
        }
        i = i + 1;
    }
    v.push(e.clone());
    assert(raw_events_view(v@) =~= s.push(e@));
}

fn merge_state_events(v: &mut Vec<StateEvent>, es: &Vec<StateEvent>)
    requires
        state_keys_unique(state_events_view(old(v)@)),
    ensures
        state_events_view(final(v)@) == merge_state(state_events_view(old(v)@), state_events_view(es@)),
        state_keys_unique(state_events_view(final(v)@)),
{
    let ghost s0 = state_events_view(v@);
    let ghost esv = state_events_view(es@);
    let mut k: usize = 0;
    assert(esv.take(0) =~= seq![]);
    while k < es.len()
        invariant
            k <= es.len(),
            esv == state_events_view(es@),
            state_keys_unique(state_events_view(v@)),
            state_events_view(v@) == merge_state(s0, esv.take(k as int)),
        decreases es.len() - k,
    {
        upsert_state_event(v, &es[k]);
        assert(esv.take(k + 1).drop_last() =~= esv.take(k as int));
        k = k + 1;
    }
    assert(esv.take(k as int) =~= esv);
}

pub(crate) fn merge_raw_events(v: &mut Vec<RawEvent>, es: &Vec<RawEvent>)
    requires
        raw_keys_unique(raw_events_view(old(v)@)),
    ensures
        raw_events_view(final(v)@) == merge_raw(raw_events_view(old(v)@), raw_events_view(es@)),
        raw_keys_unique(raw_events_view(final(v)@)),
{
    let ghost s0 = raw_events_view(v@);
    let ghost esv = raw_events_view(es@);
    let mut k: usize = 0;
    assert(esv.take(0) =~= seq![]);
    while k < es.len()
        invariant
            k <= es.len(),
            esv == raw_events_view(es@),
            raw_keys_unique(raw_events_view(v@)),
            raw_events_view(v@) == merge_raw(s0, esv.take(k as int)),
        decreases es.len() - k,
    {
        upsert_raw_event(v, &es[k]);
        assert(esv.take(k + 1).drop_last() =~= esv.take(k as int));
        k = k + 1;
    }
    assert(esv.take(k as int) =~= esv);
}

impl Room {
    fn new(id: String) -> (r: Room)
        ensures
            r@ == new_room(id@),
            r@.wf(),
    {
        let r = Room {
            room_id: id,
            kind: RoomKind::Joined,
            limited: false,
            prev_batch: None,
            timeline: Vec::new(),
            state: Vec::new(),
            unread_notifications: UnreadNotificationsCount { highlight_count: 0, notification_count: 0 },
            account_data: Vec::new(),
            ephemeral: Vec::new(),
        };
        assert(raw_events_view(r.timeline@) =~= seq![]);
        assert(state_events_view(r.state@) =~= seq![]);
        r
    }

    fn merge_timeline(&mut self, t: &Timeline)
        ensures
            final(self)@ == (RoomView {
                limited: t.limited,
                prev_batch: if t.limited || old(self)@.prev_batch is None {
                    opt_string_view(t.prev_batch)
                } else {
                    old(self)@.prev_batch
                },
                timeline: if t.limited {
                    raw_events_view(t.events@)
                } else {
                    old(self)@.timeline + raw_events_view(t.events@)
                },
                ..old(self)@
            }),
    {
        if t.limited || self.prev_batch.is_none() {
            self.prev_batch = clone_opt_string(&t.prev_batch);
        }
        if t.limited {
            self.timeline = clone_raw_events(&t.events);
        } else {
            append_raw_events(&mut self.timeline, &t.events);
        }
        self.limited = t.limited;
    }

    fn merge_joined(&mut self, d: &JoinedRoom)
        requires
            old(self)@.wf(),
        ensures
            final(self)@ == merge_room(old(self)@, joined_delta(*d)),
            final(self)@.wf(),
    {
        self.kind = RoomKind::Joined;
        self.merge_timeline(&d.timeline);
        merge_state_events(&mut self.state, &d.state);
        self.unread_notifications = d.unread_notifications;
        merge_raw_events(&mut self.account_data, &d.account_data);
        self.ephemeral = clone_raw_events(&d.ephemeral);
    }

    fn merge_left(&mut self, d: &LeftRoom)
        requires
            old(self)@.wf(),
        ensures
            final(self)@ == merge_room(old(self)@, left_delta(*d)),
            final(self)@.wf(),
    {
        self.kind = RoomKind::Left;
        self.merge_timeline(&d.timeline);
        merge_state_events(&mut self.state, &d.state);
        merge_raw_events(&mut self.account_data, &d.account_data);
    }

    fn merge_invited(&mut self, d: &InvitedRoom)
        requires
            old(self)@.wf(),
        ensures
            final(self)@ == merge_room(old(self)@, invited_delta(*d)),
            final(self)@.wf(),
    {
        self.kind = RoomKind::Invited;
        merge_state_events(&mut self.state, &d.invite_state);
        assert(merge_raw(self@.account_data, seq![]) == self@.account_data);
    }
}

pub open spec fn rooms_view(rs: Seq<Room>) -> Seq<RoomView> {
    rs.map_values(|r: Room| r@)
}

/// Rooms that only ever grow: an id once present stays, and so does the
/// place of every room.
pub open spec fn grows_from(before: Seq<RoomView>, after: Seq<RoomView>) -> bool {
    &&& before.len() <= after.len()
    &&& forall|i: int| 0 <= i < before.len() ==> (#[trigger] after[i]).id == before[i].id
}

pub proof fn lemma_grows_has_room(before: Seq<RoomView>, after: Seq<RoomView>, id: Seq<char>)
    requires
        grows_from(before, after),
        has_room(before, id),
    ensures
        has_room(after, id),
{
    let j = choose|j: int| 0 <= j < before.len() && (#[trigger] before[j]).id == id;
    assert(after[j].id == id);
}

pub proof fn lemma_apply_delta_grows(rs: Seq<RoomView>, id: Seq<char>, d: DeltaView)
    ensures
        grows_from(rs, apply_delta(rs, id, d)),
        has_room(apply_delta(rs, id, d), id),
{
    let r = apply_delta(rs, id, d);
    if has_room(rs, id) {
        let j = room_index(rs, id);
        assert(r[j].id == id);
    } else {
        assert(r[rs.len() as int].id == id);
    }
}

/// The canonical store of rooms, keyed by room id. A room keeps its place
/// (its handle) for the whole session; none is ever removed.
#[derive(Debug)]
pub struct RoomRegistry {
    rooms: Vec<Room>,
}

impl View for RoomRegistry {
    type V = Seq<RoomView>;

    closed spec fn view(&self) -> Seq<RoomView> {
        rooms_view(self.rooms@)
    }
}

impl RoomRegistry {
    pub open spec fn wf(&self) -> bool {
        registry_wf(self@)
    }

    pub fn new() -> (r: Self)
        ensures
            r.wf(),
            r@ == Seq::<RoomView>::empty(),
    {
        let r = RoomRegistry { rooms: Vec::new() };
        assert(r@ =~= Seq::<RoomView>::empty());
        r
    }

    pub fn len(&self) -> (r: usize)
        ensures
            r == self@.len(),
    {
        self.rooms.len()
    }

    /// The handle of the room with this id, if there is one.
    pub fn find(&self, id: &String) -> (r: Option<usize>)
        requires
            self.wf(),
        ensures
            r is Some <==> has_room(self@, id@),
            r is Some ==> r->0 == room_index(self@, id@) && r->0 < self@.len(),
    {
        let mut i: usize = 0;
        while i < self.rooms.len()
            invariant
                i <= self.rooms.len(),
                self.wf(),
                forall|k: int| 0 <= k < i ==> (#[trigger] self@[k]).id != id@,
            decreases self.rooms.len() - i,
        {
            if self.rooms[i].room_id == *id {
                assert(self@[i as int].id == id@);
                let ghost j = room_index(self@, id@);
                assert(self@[j].id == id@);
                assert(ids_unique(self@));
                assert(j == i);
                return Some(i);
            }
            i = i + 1;
        }
        None
    }

    /// The room with this id, if there is one.
    pub fn get(&self, id: &String) -> (r: Option<&Room>)
        requires
            self.wf(),
        ensures
            r is Some <==> has_room(self@, id@),
            r is Some ==> r->0@ == self@[room_index(self@, id@)],
    {
        match self.find(id) {
            Some(j) => Some(&self.rooms[j]),
            None => None,
        }
    }

    /// The room behind a handle.
    pub fn room(&self, handle: usize) -> (r: &Room)
        requires
            handle < self@.len(),
        ensures
            r@ == self@[handle as int],
    {
        &self.rooms[handle]
    }

    /// The ids of the rooms of one kind, in handle order.
    pub fn room_ids_of_kind(&self, kind: RoomKind) -> (r: Vec<String>)
        ensures
            r@.map_values(|s: String| s@) == self@.filter(|v: RoomView| v.kind == kind).map_values(
                |v: RoomView| v.id,
            ),
    {
        let ghost pick = |v: RoomView| v.kind == kind;
        let mut r: Vec<String> = Vec::new();
        let mut i: usize = 0;
        while i < self.rooms.len()
            invariant
                i <= self.rooms.len(),
                pick == (|v: RoomView| v.kind == kind),
                r@.map_values(|s: String| s@) == self@.take(i as int).filter(pick).map_values(
                    |v: RoomView| v.id,
                ),
            decreases self.rooms.len() - i,
        {
            let ghost before = r@.map_values(|s: String| s@);
            let ghost f_old = self@.take(i as int).filter(pick);
            let ghost f_new = self@.take(i + 1).filter(pick);
            assert(self@.take(i + 1).drop_last() =~= self@.take(i as int));
            assert(self@.take(i + 1).last() == self@[i as int]);
            assert(f_new == if pick(self@[i as int]) { f_old.push(self@[i as int]) } else { f_old }) by {
                reveal(Seq::filter);
            }
            if self.rooms[i].kind == kind {
                assert(pick(self@[i as int]));
                r.push(self.rooms[i].room_id.clone());
                assert(f_new.map_values(|v: RoomView| v.id) =~= f_old.map_values(|v: RoomView| v.id).push(
                    self@[i as int].id,
                ));
                assert(r@.map_values(|s: String| s@) =~= before.push(self@[i as int].id));
            } else {
                assert(!pick(self@[i as int]));
            }
            i = i + 1;
        }
        assert(self@.take(i as int) =~= self@);
        r
    }

    /// The handle of the room with this id, created empty if it was missing.
    fn handle_for(&mut self, id: &String) -> (j: usize)
        requires
            old(self).wf(),
        ensures
            final(self).wf(),
            final(self)@ == ensure_room(old(self)@, id@),
            j < final(self)@.len(),
            final(self)@[j as int].id == id@,
            has_room(old(self)@, id@) ==> j == room_index(old(self)@, id@),
            !has_room(old(self)@, id@) ==> j == old(self)@.len(),
    {
        match self.find(id) {
            Some(j) => j,
            None => {
                let ghost before = self@;
                let room = Room::new(id.clone());
                self.rooms.push(room);
                assert(self@ =~= before.push(new_room(id@)));
                assert(self@[before.len() as int].id == id@);
                self.rooms.len() - 1
            },
        }
    }

    /// Makes sure a room of this id exists; returns whether it was created.
    pub fn ensure_room(&mut self, id: &String) -> (created: bool)
        requires
            old(self).wf(),
        ensures
            final(self).wf(),
            final(self)@ == ensure_room(old(self)@, id@),
            created == !has_room(old(self)@, id@),
    {
        let n = self.rooms.len();
        self.handle_for(id);
        self.rooms.len() != n
    }

    pub fn apply_joined(&mut self, id: &String, d: &JoinedRoom)
        requires
            old(self).wf(),
        ensures
            final(self).wf(),
            final(self)@ == apply_delta(old(self)@, id@, joined_delta(*d)),
    {
        let ghost before = self@;
        let j = self.handle_for(id);
        let ghost mid = self@;
        self.rooms[j].merge_joined(d);
        assert(self@ =~= mid.update(j as int, merge_room(mid[j as int], joined_delta(*d))));
        proof { self.lemma_after_merge(before, mid, j as int, id@, joined_delta(*d)); }
    }

    pub fn apply_left(&mut self, id: &String, d: &LeftRoom)
        requires
            old(self).wf(),
        ensures
            final(self).wf(),
            final(self)@ == apply_delta(old(self)@, id@, left_delta(*d)),
    {
        let ghost before = self@;
        let j = self.handle_for(id);
        let ghost mid = self@;
        self.rooms[j].merge_left(d);
        assert(self@ =~= mid.update(j as int, merge_room(mid[j as int], left_delta(*d))));
        proof { self.lemma_after_merge(before, mid, j as int, id@, left_delta(*d)); }
    }

    pub fn apply_invited(&mut self, id: &String, d: &InvitedRoom)
        requires
            old(self).wf(),
        ensures
            final(self).wf(),
            final(self)@ == apply_delta(old(self)@, id@, invited_delta(*d)),
    {
        let ghost before = self@;
        let j = self.handle_for(id);
        let ghost mid = self@;
        self.rooms[j].merge_invited(d);
        assert(self@ =~= mid.update(j as int, merge_room(mid[j as int], invited_delta(*d))));
        proof { self.lemma_after_merge(before, mid, j as int, id@, invited_delta(*d)); }
    }

    proof fn lemma_after_merge(
        &self,
        before: Seq<RoomView>,
        mid: Seq<RoomView>,
        j: int,
        id: Seq<char>,
        d: DeltaView,
    )
        requires
            registry_wf(before),
            registry_wf(mid),
            mid == ensure_room(before, id),
            0 <= j < mid.len(),
            mid[j].id == id,
            has_room(before, id) ==> j == room_index(before, id),
            !has_room(before, id) ==> j == before.len(),
            self@ == mid.update(j, merge_room(mid[j], d)),
            merge_room(mid[j], d).wf(),
        ensures
            self.wf(),
            self@ == apply_delta(before, id, d),
    {
        assert(merge_room(mid[j], d).id == id);
        if has_room(before, id) {
            assert(self@ =~= apply_delta(before, id, d));
        } else {
            assert(mid[j] == new_room(id));
            assert(self@ =~= apply_delta(before, id, d));
        }
        assert forall|a: int, b: int|
            0 <= a < self@.len() && 0 <= b < self@.len() && a != b implies
            (#[trigger] self@[a]).id != (#[trigger] self@[b]).id by {
            assert(mid[a].id == self@[a].id);
            assert(mid[b].id == self@[b].id);
        }
        assert forall|a: int| 0 <= a < self@.len() implies (#[trigger] self@[a]).wf() by {
            if a != j {
                assert(self@[a] == mid[a]);
            }
        }
    }

    /// Merges every room delta of a response, joined rooms first, then left
    /// ones, then invites.
    pub fn apply_rooms(&mut self, rooms: &Rooms)
        requires
            old(self).wf(),
        ensures
            final(self).wf(),
            final(self)@ == apply_deltas(old(self)@, rooms_deltas(*rooms)),
    {
        let ghost r0 = self@;
        let ghost ds = rooms_deltas(*rooms);
        let ghost dj = rooms.join@.map_values(|p: (String, JoinedRoom)| (p.0@, joined_delta(p.1)));
        let ghost dl = rooms.leave@.map_values(|p: (String, LeftRoom)| (p.0@, left_delta(p.1)));
        let ghost di = rooms.invite@.map_values(|p: (String, InvitedRoom)| (p.0@, invited_delta(p.1)));
        assert(ds == dj + dl + di);
        let mut k: usize = 0;
        assert(dj.take(0) =~= seq![]);
        while k < rooms.join.len()
            invariant
                k <= rooms.join.len(),
                self.wf(),
                dj == rooms.join@.map_values(|p: (String, JoinedRoom)| (p.0@, joined_delta(p.1))),
                self@ == apply_deltas(r0, dj.take(k as int)),
            decreases rooms.join.len() - k,
        {
            let (id, d) = (&rooms.join[k].0, &rooms.join[k].1);
            self.apply_joined(id, d);
            assert(dj.take(k + 1).drop_last() =~= dj.take(k as int));
            k = k + 1;
        }
        assert(dj.take(k as int) =~= dj);
        k = 0;
        assert(dj + dl.take(0) =~= dj);
        while k < rooms.leave.len()
            invariant
                k <= rooms.leave.len(),
                self.wf(),
                dl == rooms.leave@.map_values(|p: (String, LeftRoom)| (p.0@, left_delta(p.1))),
                self@ == apply_deltas(r0, dj + dl.take(k as int)),
            decreases rooms.leave.len() - k,
        {
            let (id, d) = (&rooms.leave[k].0, &rooms.leave[k].1);
            self.apply_left(id, d);
            assert((dj + dl.take(k + 1)).drop_last() =~= dj + dl.take(k as int));
            k = k + 1;
        }
        assert(dl.take(k as int) =~= dl);
        k = 0;
        assert(dj + dl + di.take(0) =~= dj + dl);
        while k < rooms.invite.len()
            invariant
                k <= rooms.invite.len(),
                self.wf(),
                di == rooms.invite@.map_values(|p: (String, InvitedRoom)| (p.0@, invited_delta(p.1))),
                self@ == apply_deltas(r0, dj + dl + di.take(k as int)),
            decreases rooms.invite.len() - k,
        {
            let (id, d) = (&rooms.invite[k].0, &rooms.invite[k].1);
            self.apply_invited(id, d);
            assert((dj + dl + di.take(k + 1)).drop_last() =~= dj + dl + di.take(k as int));
            k = k + 1;
        }
        assert(di.take(k as int) =~= di);
    }
}

} // verus!
