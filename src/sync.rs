//! The normalised model of one round-trip's payload.
use vstd::prelude::*;

verus! {

/// Counts of unread notifications for a room.
#[derive(Copy, Clone, Debug, Default, PartialEq, Eq, Structural)]
pub struct UnreadNotificationsCount {
    /// The number of unread notifications for this room with the highlight flag
    /// set.
    pub highlight_count: u64,
    /// The total number of unread notifications for this room.
    pub notification_count: u64,
}

impl UnreadNotificationsCount {
    /// Builds the counts from what the server sent: a count it left out is zero.
    pub fn from_counts(highlight: Option<u64>, notification: Option<u64>) -> (r: Self)
        ensures
            r.highlight_count == (match highlight { Some(c) => c, None => 0 }),
            r.notification_count == (match notification { Some(c) => c, None => 0 }),
    {
        UnreadNotificationsCount {
            highlight_count: highlight.unwrap_or(0),
            notification_count: notification.unwrap_or(0),
        }
    }
}

/// An event as the server sent it: its type, and its JSON text.
#[derive(Debug)]
pub struct RawEvent {
    pub event_type: String,
    pub json: String,
}

impl View for RawEvent {
    type V = (Seq<char>, Seq<char>);

    open spec fn view(&self) -> (Seq<char>, Seq<char>) {
        (self.event_type@, self.json@)
    }
}

impl Clone for RawEvent {
    fn clone(&self) -> (r: Self)
        ensures
            r@ == self@,
    {
        RawEvent { event_type: self.event_type.clone(), json: self.json.clone() }
    }
}

/// A state event: its type, its state key, and its JSON text.
#[derive(Debug)]
pub struct StateEvent {
    pub event_type: String,
    pub state_key: String,
    pub json: String,
}

impl View for StateEvent {
    type V = (Seq<char>, Seq<char>, Seq<char>);

    open spec fn view(&self) -> (Seq<char>, Seq<char>, Seq<char>) {
        (self.event_type@, self.state_key@, self.json@)
    }
}

impl Clone for StateEvent {
    fn clone(&self) -> (r: Self)
        ensures
            r@ == self@,
    {
        StateEvent {
            event_type: self.event_type.clone(),
            state_key: self.state_key.clone(),
            json: self.json.clone(),
        }
    }
}

pub open spec fn raw_events_view(s: Seq<RawEvent>) -> Seq<(Seq<char>, Seq<char>)> {
    s.map_values(|e: RawEvent| e@)
}

pub open spec fn state_events_view(s: Seq<StateEvent>) -> Seq<(Seq<char>, Seq<char>, Seq<char>)> {
    s.map_values(|e: StateEvent| e@)
}

pub open spec fn opt_string_view(o: Option<String>) -> Option<Seq<char>> {
    match o {
        Some(s) => Some(s@),
        None => None,
    }
}

/// Events in the room.
#[derive(Debug)]
pub struct Timeline {
    /// True if the number of events returned was limited by the `limit` on the
    /// filter: the events do not follow on from those seen before.
    pub limited: bool,
    /// A token to paginate backwards from the first of these events.
    pub prev_batch: Option<String>,
    /// A list of events.
    pub events: Vec<RawEvent>,
}

impl Timeline {
    pub fn new(limited: bool, prev_batch: Option<String>) -> (r: Self)
        ensures
            r.limited == limited,
            r.prev_batch == prev_batch,
            r.events@.len() == 0,
    {
        Timeline { limited, prev_batch, events: Vec::new() }
    }
}

/// Updates to joined rooms.
#[derive(Debug)]
pub struct JoinedRoom {
    /// Counts of unread notifications for this room.
    pub unread_notifications: UnreadNotificationsCount,
    /// The timeline of messages and state changes in the room.
    pub timeline: Timeline,
    /// Updates to the state before the start of the `timeline`.
    pub state: Vec<StateEvent>,
    /// The private data that this user has attached to this room.
    pub account_data: Vec<RawEvent>,
    /// The ephemeral events in the room that aren't recorded in the timeline or
    /// state of the room, e.g. typing.
    pub ephemeral: Vec<RawEvent>,
}

impl JoinedRoom {
    pub fn new(
        timeline: Timeline,
        state: Vec<StateEvent>,
        account_data: Vec<RawEvent>,
        ephemeral: Vec<RawEvent>,
        unread_notifications: UnreadNotificationsCount,
    ) -> (r: Self)
        ensures
            r == (JoinedRoom { unread_notifications, timeline, state, account_data, ephemeral }),
    {
        JoinedRoom { unread_notifications, timeline, state, account_data, ephemeral }
    }
}

/// Updates to left rooms.
#[derive(Debug)]
pub struct LeftRoom {
    /// The timeline up to the point when the user left.
    pub timeline: Timeline,
    /// Updates to the state before the start of the `timeline`.
    pub state: Vec<StateEvent>,
    /// The private data that this user has attached to this room.
    pub account_data: Vec<RawEvent>,
}

impl LeftRoom {
    pub fn new(timeline: Timeline, state: Vec<StateEvent>, account_data: Vec<RawEvent>) -> (r: Self)
        ensures
            r == (LeftRoom { timeline, state, account_data }),
    {
        LeftRoom { timeline, state, account_data }
    }
}

/// Updates to rooms the user is invited to.
#[derive(Debug)]
pub struct InvitedRoom {
    /// The state of the room that the invite shows.
    pub invite_state: Vec<StateEvent>,
}

/// Updates to rooms, by room id, in each of the three kinds.
#[derive(Debug)]
pub struct Rooms {
    /// The rooms that the user has left or been banned from.
    pub leave: Vec<(String, LeftRoom)>,
    /// The rooms that the user has joined.
    pub join: Vec<(String, JoinedRoom)>,
    /// The rooms that the user has been invited to.
    pub invite: Vec<(String, InvitedRoom)>,
}

/// The server's answer for one list: its total count of rooms, and the
/// rooms it placed at given positions.
#[derive(Debug)]
pub struct ListUpdate {
    pub name: String,
    pub count: u32,
    pub windows: Vec<ListWindow>,
}

/// One round-trip's payload.
#[derive(Debug)]
pub struct SyncResponse {
    /// The new position cursor.
    pub pos: String,
    /// What changed in each list.
    pub lists: Vec<ListUpdate>,
    /// Updates to rooms.
    pub rooms: Rooms,
    /// The global private data created by this user.
    pub account_data: Vec<RawEvent>,
    /// Messages sent directly between devices.
    pub to_device: Vec<RawEvent>,
    /// For each key algorithm, the number of unclaimed one-time keys
    /// currently held on the server for this device.
    pub device_one_time_keys_count: Vec<(String, u64)>,
}

/// Rooms that the server placed in a list, from index `start` on.
#[derive(Debug)]
pub struct ListWindow {
    pub start: u32,
    pub room_ids: Vec<String>,
}

/// A window, with room ids as character sequences.
pub struct WindowView {
    pub start: nat,
    pub room_ids: Seq<Seq<char>>,
}

impl View for ListWindow {
    type V = WindowView;

    open spec fn view(&self) -> WindowView {
        WindowView {
            start: self.start as nat,
            room_ids: self.room_ids@.map_values(|s: String| s@),
        }
    }
}

pub open spec fn windows_view(ws: Seq<ListWindow>) -> Seq<WindowView> {
    ws.map_values(|w: ListWindow| w@)
}

} // verus!
