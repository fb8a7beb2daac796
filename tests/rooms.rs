use sliding_sync::engine::{ExtensionsConfig, SlidingSync, TransportError};
use sliding_sync::rooms::{RoomKind, RoomRegistry};
use sliding_sync::sync::{
    InvitedRoom, JoinedRoom, LeftRoom, ListUpdate, ListWindow, RawEvent, Rooms, StateEvent,
    SyncResponse, Timeline, UnreadNotificationsCount,
};

fn ev(t: &str, json: &str) -> RawEvent {
    RawEvent { event_type: t.to_owned(), json: json.to_owned() }
}

fn st(t: &str, key: &str, json: &str) -> StateEvent {
    StateEvent { event_type: t.to_owned(), state_key: key.to_owned(), json: json.to_owned() }
}

fn timeline(limited: bool, prev_batch: Option<&str>, events: Vec<RawEvent>) -> Timeline {
    let mut t = Timeline::new(limited, prev_batch.map(|s| s.to_owned()));
    t.events = events;
    t
}

fn joined(t: Timeline, state: Vec<StateEvent>, unread: (u64, u64)) -> JoinedRoom {
    JoinedRoom::new(
        t,
        state,
        Vec::new(),
        Vec::new(),
        UnreadNotificationsCount { highlight_count: unread.0, notification_count: unread.1 },
    )
}

fn jsons(events: &[RawEvent]) -> Vec<String> {
    events.iter().map(|e| e.json.clone()).collect()
}

#[test]
fn unread_counts_default_to_zero() {
    let c = UnreadNotificationsCount::from_counts(Some(3), None);
    assert_eq!(c, UnreadNotificationsCount { highlight_count: 3, notification_count: 0 });
    let c = UnreadNotificationsCount::from_counts(None, Some(9));
    assert_eq!(c.highlight_count, 0);
    assert_eq!(c.notification_count, 9);
}

#[test]
fn timeline_new_is_empty() {
    let t = Timeline::new(true, Some("tok".to_owned()));
    assert!(t.limited);
    assert_eq!(t.prev_batch.as_deref(), Some("tok"));
    assert!(t.events.is_empty());
}

#[test]
fn joined_room_is_created_and_filled() {
    let mut reg = RoomRegistry::new();
    let id = "!a:x".to_owned();
    reg.apply_joined(&id, &joined(timeline(false, Some("tok_a"), vec![ev("m.room.message", "1")]), vec![st("m.room.name", "", "n1")], (1, 2)));
    assert_eq!(reg.len(), 1);
    let room = reg.get(&id).unwrap();
    assert_eq!(room.kind, RoomKind::Joined);
    assert_eq!(jsons(&room.timeline), vec!["1".to_owned()]);
    assert_eq!(room.prev_batch.as_deref(), Some("tok_a"));
    assert_eq!(room.state.len(), 1);
    assert_eq!(room.unread_notifications.notification_count, 2);
}

#[test]
fn timeline_appends_unless_limited() {
    let mut reg = RoomRegistry::new();
    let id = "!a:x".to_owned();
    reg.apply_joined(&id, &joined(timeline(false, Some("tok_a"), vec![ev("m", "1"), ev("m", "2")]), vec![], (0, 0)));
    reg.apply_joined(&id, &joined(timeline(false, Some("tok_b"), vec![ev("m", "3")]), vec![], (0, 0)));
    let room = reg.get(&id).unwrap();
    assert_eq!(jsons(&room.timeline), vec!["1".to_owned(), "2".to_owned(), "3".to_owned()]);
    assert_eq!(room.prev_batch.as_deref(), Some("tok_a"));
    assert!(!room.limited);

    reg.apply_joined(&id, &joined(timeline(true, Some("tok_c"), vec![ev("m", "9")]), vec![], (0, 0)));
    let room = reg.get(&id).unwrap();
    assert_eq!(jsons(&room.timeline), vec!["9".to_owned()]);
    assert_eq!(room.prev_batch.as_deref(), Some("tok_c"));
    assert!(room.limited);
}

#[test]
fn state_last_write_wins_per_type_and_key() {
    let mut reg = RoomRegistry::new();
    let id = "!a:x".to_owned();
    reg.apply_joined(
        &id,
        &joined(
            Timeline::new(false, None),
            vec![st("m.room.member", "@a", "join"), st("m.room.member", "@b", "join"), st("m.room.name", "", "old")],
            (0, 0),
        ),
    );
    reg.apply_joined(
        &id,
        &joined(Timeline::new(false, None), vec![st("m.room.member", "@a", "leave"), st("m.room.name", "", "new")], (0, 0)),
    );
    let room = reg.get(&id).unwrap();
    let state: Vec<(String, String, String)> =
        room.state.iter().map(|e| (e.event_type.clone(), e.state_key.clone(), e.json.clone())).collect();
    assert_eq!(
        state,
        vec![
            ("m.room.member".to_owned(), "@a".to_owned(), "leave".to_owned()),
            ("m.room.member".to_owned(), "@b".to_owned(), "join".to_owned()),
            ("m.room.name".to_owned(), "".to_owned(), "new".to_owned()),
        ]
    );
}

#[test]
fn unread_counts_are_replaced() {
    let mut reg = RoomRegistry::new();
    let id = "!a:x".to_owned();
    reg.apply_joined(&id, &joined(Timeline::new(false, None), vec![], (5, 7)));
    reg.apply_joined(&id, &joined(Timeline::new(false, None), vec![], (0, 1)));
    let u = reg.get(&id).unwrap().unread_notifications;
    assert_eq!(u, UnreadNotificationsCount { highlight_count: 0, notification_count: 1 });
}

#[test]
fn account_data_last_write_wins_per_type() {
    let mut reg = RoomRegistry::new();
    let id = "!a:x".to_owned();
    let mut d = joined(Timeline::new(false, None), vec![], (0, 0));
    d.account_data = vec![ev("m.tag", "t1"), ev("m.fully_read", "f1")];
    reg.apply_joined(&id, &d);
    let mut d = joined(Timeline::new(false, None), vec![], (0, 0));
    d.account_data = vec![ev("m.tag", "t2")];
    d.ephemeral = vec![ev("m.typing", "[]")];
    reg.apply_joined(&id, &d);
    let room = reg.get(&id).unwrap();
    assert_eq!(jsons(&room.account_data), vec!["t2".to_owned(), "f1".to_owned()]);
    assert_eq!(jsons(&room.ephemeral), vec!["[]".to_owned()]);
}

#[test]
fn kind_moves_between_partitions() {
    let mut reg = RoomRegistry::new();
    let a = "!a:x".to_owned();
    let b = "!b:x".to_owned();
    reg.apply_invited(&a, &InvitedRoom { invite_state: vec![st("m.room.name", "", "A")] });
    reg.apply_joined(&b, &joined(Timeline::new(false, None), vec![], (0, 0)));
    assert_eq!(reg.room_ids_of_kind(RoomKind::Invited), vec![a.clone()]);
    assert_eq!(reg.room_ids_of_kind(RoomKind::Joined), vec![b.clone()]);

    reg.apply_joined(&a, &joined(Timeline::new(false, None), vec![], (0, 0)));
    reg.apply_left(&b, &LeftRoom::new(Timeline::new(false, None), vec![], vec![]));
    assert_eq!(reg.room_ids_of_kind(RoomKind::Invited), Vec::<String>::new());
    assert_eq!(reg.room_ids_of_kind(RoomKind::Joined), vec![a.clone()]);
    assert_eq!(reg.room_ids_of_kind(RoomKind::Left), vec![b.clone()]);
    // A left room is kept, with its data.
    assert_eq!(reg.len(), 2);
    assert_eq!(reg.get(&a).unwrap().state.len(), 1);
}

#[test]
fn handles_are_stable() {
    let mut reg = RoomRegistry::new();
    for i in 0..5 {
        assert!(reg.ensure_room(&format!("!r{i}:x")));
    }
    assert!(!reg.ensure_room(&"!r2:x".to_owned()));
    assert_eq!(reg.find(&"!r3:x".to_owned()), Some(3));
    assert_eq!(reg.room(3).room_id, "!r3:x");
    assert_eq!(reg.find(&"!nope:x".to_owned()), None);
}

#[test]
fn round_trip_merges_room_deltas() {
    let config = ExtensionsConfig { account_data: true, to_device: true, e2ee: true, typing: true, receipts: true };
    let mut sync = SlidingSync::new(config);
    sync.begin_step().unwrap();
    let resp = SyncResponse {
        pos: "1".to_owned(),
        lists: Vec::new(),
        rooms: Rooms {
            join: vec![("!a:x".to_owned(), joined(timeline(false, None, vec![ev("m", "1")]), vec![], (0, 3)))],
            leave: vec![("!b:x".to_owned(), LeftRoom::new(Timeline::new(false, None), vec![], vec![]))],
            invite: vec![("!a:x".to_owned(), InvitedRoom { invite_state: vec![] })],
        },
        account_data: vec![ev("m.direct", "d1"), ev("m.direct", "d2")],
        to_device: Vec::new(),
        device_one_time_keys_count: Vec::new(),
    };
    let summary = sync.complete_step(Ok(resp)).unwrap();
    assert_eq!(summary.rooms, vec!["!a:x".to_owned(), "!b:x".to_owned()]);
    assert!(summary.lists.is_empty());
    let rooms = sync.rooms();
    // Invites come last: the room ends up invited.
    assert_eq!(rooms.get(&"!a:x".to_owned()).unwrap().kind, RoomKind::Invited);
    assert_eq!(rooms.get(&"!b:x".to_owned()).unwrap().kind, RoomKind::Left);
}

#[test]
fn failed_round_trip_keeps_rooms() {
    let config = ExtensionsConfig { account_data: true, to_device: true, e2ee: true, typing: true, receipts: true };
    let mut sync = SlidingSync::new(config);
    sync.begin_step().unwrap();
    let resp = SyncResponse {
        pos: "1".to_owned(),
        lists: vec![ListUpdate {
            name: "foo".to_owned(),
            count: 1,
            windows: vec![ListWindow { start: 0, room_ids: vec!["!a:x".to_owned(), "!b:x".to_owned()] }],
        }],
        rooms: Rooms { join: Vec::new(), leave: Vec::new(), invite: Vec::new() },
        account_data: Vec::new(),
        to_device: Vec::new(),
        device_one_time_keys_count: Vec::new(),
    };
    assert!(sync.complete_step(Ok(resp)).is_err());
    assert_eq!(sync.rooms().len(), 0);
    sync.begin_step().unwrap();
    assert!(sync.complete_step(Err(TransportError::Other("down".to_owned()))).is_err());
    assert_eq!(sync.rooms().len(), 0);
}
