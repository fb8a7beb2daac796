use sliding_sync::engine::{
    ExtensionsConfig, FrozenSlidingSync, SlidingSync, SyncRequest, TransportError, UpdateSummary,
};
use sliding_sync::error::{ConfigurationError, SyncError};
use sliding_sync::room_list::{RoomListEntry, SlidingSyncList, SlidingSyncMode, SlidingSyncState};
use sliding_sync::sync::{ListUpdate, ListWindow, RawEvent, Rooms, SyncResponse};

#[derive(PartialEq, Eq, Clone, Debug)]
enum RoomListEntryEasy {
    Empty,
    Invalid,
    Filled,
}

impl From<&RoomListEntry> for RoomListEntryEasy {
    fn from(value: &RoomListEntry) -> Self {
        match value {
            RoomListEntry::Empty => RoomListEntryEasy::Empty,
            RoomListEntry::Invalidated(_) => RoomListEntryEasy::Invalid,
            RoomListEntry::Filled(_) => RoomListEntryEasy::Filled,
        }
    }
}

fn common_extensions() -> ExtensionsConfig {
    ExtensionsConfig { account_data: true, to_device: true, e2ee: true, typing: true, receipts: true }
}

fn no_rooms() -> Rooms {
    Rooms { leave: Vec::new(), join: Vec::new(), invite: Vec::new() }
}

fn room_id(i: usize) -> String {
    format!("!room{i}:example.org")
}

/// A server holding `total` rooms, ordered by index, that answers every
/// list of the request with the rooms its ranges cover.
fn serve(req: &SyncRequest, total: usize, pos: &str) -> SyncResponse {
    let mut lists = Vec::new();
    for l in &req.lists {
        let mut windows = Vec::new();
        for &(start, end) in &l.ranges {
            let start = start as usize;
            if start >= total {
                continue;
            }
            let end = (end as usize).min(total - 1);
            let room_ids = (start..=end).map(room_id).collect();
            windows.push(ListWindow { start: start as u32, room_ids });
        }
        lists.push(ListUpdate { name: l.name.clone(), count: total as u32, windows });
    }
    SyncResponse {
        pos: pos.to_owned(),
        lists,
        rooms: no_rooms(),
        account_data: Vec::new(),
        to_device: Vec::new(),
        device_one_time_keys_count: Vec::new(),
    }
}

fn round_trip(sync: &mut SlidingSync, total: usize, pos: &str) -> UpdateSummary {
    let req = sync.begin_step().expect("no round-trip is outstanding");
    let resp = serve(&req, total, pos);
    sync.complete_step(Ok(resp)).expect("the response is well-formed")
}

fn easy(sync: &SlidingSync, name: &str) -> Vec<RoomListEntryEasy> {
    sync.list(&name.to_owned()).unwrap().room_list().iter().map(RoomListEntryEasy::from).collect()
}

fn selective(name: &str, start: u32, end: u32) -> SlidingSyncList {
    SlidingSyncList::new(name.to_owned(), SlidingSyncMode::Selective).with_ranges(vec![(start, end)])
}

fn growing(name: &str, batch_size: u32) -> SlidingSyncList {
    SlidingSyncList::new(
        name.to_owned(),
        SlidingSyncMode::Growing { batch_size, maximum_number_of_rooms_to_fetch: None },
    )
}

fn repeat(e: RoomListEntryEasy, n: usize) -> Vec<RoomListEntryEasy> {
    std::iter::repeat(e).take(n).collect()
}

#[test]
fn it_works_smoke_test() {
    let user = "odo".to_owned();
    let mut sync = SlidingSync::new(common_extensions());
    sync.add_list(
        SlidingSyncList::new("foo".to_owned(), SlidingSyncMode::Selective)
            .with_ranges(vec![(0, 10)])
            .with_timeline_limit(Some(0)),
    );
    let req = sync.begin_step().expect("No room summary found, loop ended unsuccessfully");
    assert_eq!(req.lists.len(), 1);
    assert_eq!(req.lists[0].ranges, vec![(0, 10)]);
    // A fresh user is in no room at all.
    let resp = serve(&req, 0, &user);
    let summary = sync.complete_step(Ok(resp)).expect("No room summary found, loop ended unsuccessfully");
    assert_eq!(summary.rooms.len(), 0);
}

#[test]
fn selective_first_response_fills_window() {
    let mut sync = SlidingSync::new(common_extensions());
    sync.add_list(selective("foo", 0, 10));
    assert_eq!(sync.list(&"foo".to_owned()).unwrap().state(), SlidingSyncState::NotLoaded);
    let summary = round_trip(&mut sync, 20, "1");
    assert_eq!(summary.lists, vec!["foo".to_owned()]);
    assert_eq!(summary.rooms.len(), 11);
    let mut expected = repeat(RoomListEntryEasy::Filled, 11);
    expected.extend(repeat(RoomListEntryEasy::Empty, 9));
    assert_eq!(easy(&sync, "foo"), expected);
    let list = sync.list(&"foo".to_owned()).unwrap();
    assert_eq!(list.state(), SlidingSyncState::FullyLoaded);
    assert_eq!(list.maximum_number_of_rooms(), Some(20));
    assert_eq!(sync.pos(), &Some("1".to_owned()));
}

#[test]
fn resizing_selective_window_invalidates_slot_zero() {
    let mut sync = SlidingSync::new(common_extensions());
    sync.add_list(selective("foo", 0, 10));
    round_trip(&mut sync, 20, "1");
    sync.set_list_ranges(&"foo".to_owned(), vec![(1, 10)]).unwrap();
    let list = sync.list(&"foo".to_owned()).unwrap();
    assert_eq!(list.room_list()[0], RoomListEntry::Invalidated(room_id(0)));
    let mut expected = vec![RoomListEntryEasy::Invalid];
    expected.extend(repeat(RoomListEntryEasy::Filled, 10));
    expected.extend(repeat(RoomListEntryEasy::Empty, 9));
    assert_eq!(easy(&sync, "foo"), expected);
    // The next round-trip leaves the stale slot as it is.
    round_trip(&mut sync, 20, "2");
    assert_eq!(easy(&sync, "foo"), expected);
}

#[test]
fn moving_window_forward_and_back() {
    let mut sync = SlidingSync::new(common_extensions());
    sync.add_list(selective("foo", 1, 10));
    round_trip(&mut sync, 20, "1");
    let mut expected = vec![RoomListEntryEasy::Empty];
    expected.extend(repeat(RoomListEntryEasy::Filled, 10));
    expected.extend(repeat(RoomListEntryEasy::Empty, 9));
    assert_eq!(easy(&sync, "foo"), expected);

    sync.set_list_ranges(&"foo".to_owned(), vec![(5, 15)]).unwrap();
    round_trip(&mut sync, 20, "2");
    let mut expected = vec![RoomListEntryEasy::Empty];
    expected.extend(repeat(RoomListEntryEasy::Invalid, 4));
    expected.extend(repeat(RoomListEntryEasy::Filled, 11));
    expected.extend(repeat(RoomListEntryEasy::Empty, 4));
    assert_eq!(easy(&sync, "foo"), expected);

    sync.set_list_ranges(&"foo".to_owned(), vec![(0, 10)]).unwrap();
    round_trip(&mut sync, 20, "3");
    let mut expected = repeat(RoomListEntryEasy::Filled, 11);
    expected.extend(repeat(RoomListEntryEasy::Invalid, 5));
    expected.extend(repeat(RoomListEntryEasy::Empty, 4));
    assert_eq!(easy(&sync, "foo"), expected);
}

#[test]
fn growing_sync_keeps_going() {
    let mut sync = SlidingSync::new(common_extensions());
    sync.add_list(growing("full", 5));
    for pos in ["1", "2", "3"] {
        round_trip(&mut sync, 20, pos);
    }
    let mut expected = repeat(RoomListEntryEasy::Filled, 15);
    expected.extend(repeat(RoomListEntryEasy::Empty, 5));
    assert_eq!(easy(&sync, "full"), expected);
    assert_eq!(sync.list(&"full".to_owned()).unwrap().state(), SlidingSyncState::PartiallyLoaded);

    round_trip(&mut sync, 20, "4");
    assert_eq!(easy(&sync, "full"), repeat(RoomListEntryEasy::Filled, 20));
    assert_eq!(sync.list(&"full".to_owned()).unwrap().state(), SlidingSyncState::FullyLoaded);
}

#[test]
fn growing_requests_grow_by_batch() {
    let mut sync = SlidingSync::new(common_extensions());
    sync.add_list(growing("full", 5));
    let req = sync.begin_step().unwrap();
    assert_eq!(req.lists[0].ranges, vec![(0, 4)]);
    let resp = serve(&req, 12, "1");
    sync.complete_step(Ok(resp)).unwrap();
    let req = sync.begin_step().unwrap();
    assert_eq!(req.lists[0].ranges, vec![(0, 9)]);
    let resp = serve(&req, 12, "2");
    sync.complete_step(Ok(resp)).unwrap();
    let req = sync.begin_step().unwrap();
    assert_eq!(req.lists[0].ranges, vec![(0, 11)]);
}

#[test]
fn growing_respects_maximum_to_fetch() {
    let mut sync = SlidingSync::new(common_extensions());
    sync.add_list(SlidingSyncList::new(
        "capped".to_owned(),
        SlidingSyncMode::Growing { batch_size: 10, maximum_number_of_rooms_to_fetch: Some(15) },
    ));
    round_trip(&mut sync, 40, "1");
    round_trip(&mut sync, 40, "2");
    let list = sync.list(&"capped".to_owned()).unwrap();
    assert_eq!(list.fetched(), 15);
    assert_eq!(list.state(), SlidingSyncState::FullyLoaded);
    assert_eq!(list.room_list().len(), 40);
    let req = sync.begin_step().unwrap();
    assert_eq!(req.lists[0].ranges, vec![(0, 14)]);
}

#[test]
fn noticing_new_rooms_in_growing() {
    let mut sync = SlidingSync::new(common_extensions());
    sync.add_list(growing("full", 10));
    let mut n = 0;
    while sync.list(&"full".to_owned()).unwrap().state() != SlidingSyncState::FullyLoaded {
        n += 1;
        round_trip(&mut sync, 20, &n.to_string());
    }
    assert_eq!(easy(&sync, "full"), repeat(RoomListEntryEasy::Filled, 20));

    // Two rooms are created on the server.
    round_trip(&mut sync, 22, "a");
    let list = sync.list(&"full".to_owned()).unwrap();
    assert_eq!(list.state(), SlidingSyncState::PartiallyLoaded);
    assert_eq!(list.maximum_number_of_rooms(), Some(22));

    round_trip(&mut sync, 22, "b");
    let list = sync.list(&"full".to_owned()).unwrap();
    assert_eq!(list.state(), SlidingSyncState::FullyLoaded);
    assert_eq!(easy(&sync, "full"), repeat(RoomListEntryEasy::Filled, 22));
}

#[test]
fn continue_on_reset() {
    let mut sync = SlidingSync::new(common_extensions());
    sync.add_list(growing("full", 5));
    round_trip(&mut sync, 20, "1");
    round_trip(&mut sync, 20, "2");
    let before = easy(&sync, "full");
    assert_eq!(sync.list(&"full".to_owned()).unwrap().fetched(), 10);

    // A cursor the server never issued.
    sync.set_pos(Some("100".to_owned()));
    let req = sync.begin_step().unwrap();
    assert_eq!(req.pos, Some("100".to_owned()));
    let mut errors = 0;
    match sync.complete_step(Err(TransportError::UnknownPos)) {
        Err(SyncError::UnknownPosition) => errors += 1,
        other => panic!("unexpected outcome: {other:?}"),
    }
    assert_eq!(sync.pos(), &None);
    assert_eq!(easy(&sync, "full"), before);
    assert_eq!(sync.list(&"full".to_owned()).unwrap().fetched(), 10);

    // The next round-trip resumes without a cursor, from where it got to.
    let req = sync.begin_step().unwrap();
    assert_eq!(req.pos, None);
    assert_eq!(req.lists[0].ranges, vec![(0, 14)]);
    let resp = serve(&req, 20, "3");
    match sync.complete_step(Ok(resp)) {
        Ok(_) => {},
        Err(SyncError::UnknownPosition) => errors += 1,
        Err(e) => panic!("unexpected error: {e:?}"),
    }
    round_trip(&mut sync, 20, "4");
    assert_eq!(errors, 1);
    assert_eq!(easy(&sync, "full"), repeat(RoomListEntryEasy::Filled, 20));
    assert_eq!(sync.pos(), &Some("4".to_owned()));
}

#[test]
fn unchanged_window_gives_no_list_update() {
    let mut sync = SlidingSync::new(common_extensions());
    sync.add_list(selective("foo", 0, 10));
    let first = round_trip(&mut sync, 20, "1");
    assert_eq!(first.lists, vec!["foo".to_owned()]);
    let second = round_trip(&mut sync, 20, "2");
    assert!(second.lists.is_empty());
    assert!(second.rooms.is_empty());
}

#[test]
fn fully_loaded_growing_list_gives_no_update_when_nothing_moves() {
    let mut sync = SlidingSync::new(common_extensions());
    sync.add_list(growing("full", 20));
    let first = round_trip(&mut sync, 20, "1");
    assert_eq!(first.lists, vec!["full".to_owned()]);
    let second = round_trip(&mut sync, 20, "2");
    assert!(second.lists.is_empty());
}

#[test]
fn entries_never_shrink_when_total_drops() {
    let mut sync = SlidingSync::new(common_extensions());
    sync.add_list(selective("foo", 0, 4));
    round_trip(&mut sync, 20, "1");
    assert_eq!(sync.list(&"foo".to_owned()).unwrap().room_list().len(), 20);
    round_trip(&mut sync, 3, "2");
    let list = sync.list(&"foo".to_owned()).unwrap();
    assert_eq!(list.room_list().len(), 20);
    assert_eq!(list.maximum_number_of_rooms(), Some(3));
}

#[test]
fn transport_error_changes_nothing() {
    let mut sync = SlidingSync::new(common_extensions());
    sync.add_list(selective("foo", 0, 10));
    round_trip(&mut sync, 20, "1");
    let before = easy(&sync, "foo");
    sync.begin_step().unwrap();
    match sync.complete_step(Err(TransportError::Other("timeout".to_owned()))) {
        Err(SyncError::Transport(m)) => assert_eq!(m, "timeout"),
        other => panic!("unexpected outcome: {other:?}"),
    }
    assert_eq!(sync.pos(), &Some("1".to_owned()));
    assert_eq!(easy(&sync, "foo"), before);
}

#[test]
fn window_beyond_count_is_a_protocol_error() {
    let mut sync = SlidingSync::new(common_extensions());
    sync.add_list(selective("foo", 0, 10));
    let req = sync.begin_step().unwrap();
    let mut resp = serve(&req, 20, "1");
    resp.lists[0].count = 5;
    match sync.complete_step(Ok(resp)) {
        Err(SyncError::Protocol(name)) => assert_eq!(name, "foo"),
        other => panic!("unexpected outcome: {other:?}"),
    }
    assert_eq!(sync.pos(), &None);
    assert!(sync.list(&"foo".to_owned()).unwrap().room_list().is_empty());
    assert_eq!(sync.rooms().len(), 0);
    // The round-trip is over: another one may start.
    assert!(sync.begin_step().is_ok());
}

#[test]
fn only_one_step_in_flight() {
    let mut sync = SlidingSync::new(common_extensions());
    sync.add_list(selective("foo", 0, 10));
    sync.begin_step().unwrap();
    match sync.begin_step() {
        Err(SyncError::Configuration(ConfigurationError::StepInFlight)) => {},
        other => panic!("unexpected outcome: {other:?}"),
    }
}

#[test]
fn completing_without_step_is_refused() {
    let mut sync = SlidingSync::new(common_extensions());
    match sync.complete_step(Err(TransportError::UnknownPos)) {
        Err(SyncError::Configuration(ConfigurationError::NoStepInFlight)) => {},
        other => panic!("unexpected outcome: {other:?}"),
    }
}

#[test]
fn unknown_list_is_a_configuration_error() {
    let mut sync = SlidingSync::new(common_extensions());
    match sync.set_list_ranges(&"nope".to_owned(), vec![(0, 1)]) {
        Err(SyncError::Configuration(ConfigurationError::UnknownList(n))) => assert_eq!(n, "nope"),
        other => panic!("unexpected outcome: {other:?}"),
    }
}

#[test]
fn ranges_on_growing_list_are_refused() {
    let mut sync = SlidingSync::new(common_extensions());
    sync.add_list(growing("full", 5));
    match sync.set_list_ranges(&"full".to_owned(), vec![(0, 1)]) {
        Err(SyncError::Configuration(ConfigurationError::RangesOnGrowingList)) => {},
        other => panic!("unexpected outcome: {other:?}"),
    }
}

#[test]
fn adding_and_removing_lists() {
    let mut sync = SlidingSync::new(common_extensions());
    assert!(sync.add_list(selective("a", 0, 1)).is_none());
    assert!(sync.add_list(selective("b", 0, 1)).is_none());
    let replaced = sync.add_list(selective("a", 0, 5)).expect("a list named a was there");
    assert_eq!(replaced.ranges(), &vec![(0, 1)]);
    assert_eq!(sync.lists().len(), 2);
    assert_eq!(sync.lists()[0].ranges(), &vec![(0, 5)]);
    let summary = round_trip(&mut sync, 10, "1");
    assert_eq!(summary.lists, vec!["a".to_owned(), "b".to_owned()]);

    assert!(sync.remove_list(&"a".to_owned()).is_some());
    assert!(sync.remove_list(&"a".to_owned()).is_none());
    let req = sync.begin_step().unwrap();
    assert_eq!(req.lists.len(), 1);
    assert_eq!(req.lists[0].name, "b");
}

#[test]
fn list_added_mid_flight_waits_for_next_request() {
    let mut sync = SlidingSync::new(common_extensions());
    sync.add_list(selective("a", 0, 2));
    let req = sync.begin_step().unwrap();
    sync.add_list(selective("b", 0, 2));
    let resp = serve(&req, 10, "1");
    let summary = sync.complete_step(Ok(resp)).unwrap();
    assert_eq!(summary.lists, vec!["a".to_owned()]);
    assert_eq!(sync.list(&"b".to_owned()).unwrap().state(), SlidingSyncState::NotLoaded);
}

#[test]
fn request_carries_configuration() {
    let mut sync = SlidingSync::new(common_extensions());
    sync.add_list(
        selective("foo", 0, 3)
            .with_sort(vec!["by_recency".to_owned(), "by_name".to_owned()])
            .with_filters(vec!["is_dm".to_owned()])
            .with_timeline_limit(Some(7)),
    );
    sync.subscribe_to_room(room_id(42));
    sync.subscribe_to_room(room_id(42));
    let req = sync.begin_step().unwrap();
    assert_eq!(req.lists[0].sort, vec!["by_recency".to_owned(), "by_name".to_owned()]);
    assert_eq!(req.lists[0].filters, vec!["is_dm".to_owned()]);
    assert_eq!(req.lists[0].timeline_limit, Some(7));
    assert_eq!(req.room_subscriptions, vec![room_id(42)]);
    assert_eq!(req.extensions, common_extensions());
    sync.cancel_step();
    sync.set_list_timeline_limit(&"foo".to_owned(), Some(20)).unwrap();
    let req = sync.begin_step().unwrap();
    assert_eq!(req.lists[0].timeline_limit, Some(20));
    assert!(sync.set_list_timeline_limit(&"nope".to_owned(), None).is_err());
}

#[test]
fn filled_rooms_exist_in_registry() {
    let mut sync = SlidingSync::new(common_extensions());
    sync.add_list(selective("foo", 0, 2));
    let summary = round_trip(&mut sync, 5, "1");
    assert_eq!(summary.rooms, vec![room_id(0), room_id(1), room_id(2)]);
    for i in 0..3 {
        assert!(sync.rooms().get(&room_id(i)).is_some());
    }
    assert_eq!(sync.rooms().len(), 3);
}

#[test]
fn same_room_in_two_lists() {
    let mut sync = SlidingSync::new(common_extensions());
    sync.add_list(selective("a", 0, 1));
    sync.add_list(selective("b", 1, 2));
    let summary = round_trip(&mut sync, 5, "1");
    assert_eq!(summary.rooms, vec![room_id(0), room_id(1), room_id(2)]);
    assert_eq!(sync.rooms().len(), 3);
    assert_eq!(sync.list(&"a".to_owned()).unwrap().room_list()[1], RoomListEntry::Filled(room_id(1)));
    assert_eq!(sync.list(&"b".to_owned()).unwrap().room_list()[1], RoomListEntry::Filled(room_id(1)));
}

#[test]
fn extensions_are_merged() {
    let mut sync = SlidingSync::new(common_extensions());
    let req = sync.begin_step().unwrap();
    let mut resp = serve(&req, 0, "1");
    resp.to_device.push(RawEvent { event_type: "m.room_key".to_owned(), json: "{}".to_owned() });
    resp.device_one_time_keys_count.push(("signed_curve25519".to_owned(), 50));
    resp.account_data.push(RawEvent { event_type: "m.direct".to_owned(), json: "a".to_owned() });
    resp.account_data.push(RawEvent { event_type: "m.push_rules".to_owned(), json: "b".to_owned() });
    sync.complete_step(Ok(resp)).unwrap();
    assert_eq!(sync.one_time_keys(), &vec![("signed_curve25519".to_owned(), 50)]);
    let req = sync.begin_step().unwrap();
    let mut resp = serve(&req, 0, "2");
    resp.account_data.push(RawEvent { event_type: "m.direct".to_owned(), json: "c".to_owned() });
    sync.complete_step(Ok(resp)).unwrap();
    let data: Vec<(String, String)> =
        sync.account_data().iter().map(|e| (e.event_type.clone(), e.json.clone())).collect();
    assert_eq!(
        data,
        vec![("m.direct".to_owned(), "c".to_owned()), ("m.push_rules".to_owned(), "b".to_owned())]
    );
    assert_eq!(sync.one_time_keys(), &vec![]);
    let inbox = sync.take_to_device();
    assert_eq!(inbox.len(), 1);
    assert_eq!(inbox[0].event_type, "m.room_key");
    assert!(sync.take_to_device().is_empty());
}

#[test]
fn disabled_extensions_are_ignored() {
    let config = ExtensionsConfig { account_data: false, to_device: false, e2ee: false, typing: false, receipts: false };
    let mut sync = SlidingSync::new(config);
    let req = sync.begin_step().unwrap();
    let mut resp = serve(&req, 0, "1");
    resp.to_device.push(RawEvent { event_type: "m.room_key".to_owned(), json: "{}".to_owned() });
    resp.account_data.push(RawEvent { event_type: "m.direct".to_owned(), json: "a".to_owned() });
    resp.device_one_time_keys_count.push(("signed_curve25519".to_owned(), 50));
    sync.complete_step(Ok(resp)).unwrap();
    assert!(sync.take_to_device().is_empty());
    assert!(sync.account_data().is_empty());
    assert!(sync.one_time_keys().is_empty());
}

#[test]
fn cancelled_step_keeps_state() {
    let mut sync = SlidingSync::new(common_extensions());
    sync.add_list(selective("foo", 0, 3));
    round_trip(&mut sync, 10, "1");
    let before = easy(&sync, "foo");
    sync.begin_step().unwrap();
    assert!(sync.is_step_in_flight());
    sync.cancel_step();
    assert!(!sync.is_step_in_flight());
    assert_eq!(sync.pos(), &Some("1".to_owned()));
    assert_eq!(easy(&sync, "foo"), before);
    round_trip(&mut sync, 10, "2");
    assert_eq!(sync.pos(), &Some("2".to_owned()));
}

#[test]
fn freeze_and_restore() {
    let mut sync = SlidingSync::new(common_extensions());
    sync.add_list(selective("foo", 0, 10));
    sync.add_list(growing("full", 5));
    round_trip(&mut sync, 20, "1");
    sync.set_list_ranges(&"foo".to_owned(), vec![(1, 10)]).unwrap();
    let frozen = sync.freeze();
    assert_eq!(frozen.pos, Some("1".to_owned()));
    assert_eq!(frozen.lists.len(), 2);

    let restored = SlidingSync::from_frozen(frozen, common_extensions()).expect("the record is valid");
    assert_eq!(restored.pos(), &Some("1".to_owned()));
    assert_eq!(easy(&restored, "foo"), easy(&sync, "foo"));
    assert_eq!(easy(&restored, "full"), easy(&sync, "full"));
    let list = restored.list(&"full".to_owned()).unwrap();
    assert_eq!(list.fetched(), 5);
    assert_eq!(list.state(), SlidingSyncState::PartiallyLoaded);
    assert_eq!(restored.list(&"foo".to_owned()).unwrap().ranges(), &vec![(1, 10)]);
    // Every filled slot names a room the registry holds: rooms 1..=10 of
    // the selective list, and room 0 of the growing one.
    assert_eq!(restored.rooms().len(), 11);
    assert!(restored.rooms().get(&room_id(0)).is_some());
}

#[test]
fn restore_refuses_bad_records() {
    let mut sync = SlidingSync::new(common_extensions());
    sync.add_list(selective("foo", 0, 10));
    let mut frozen = sync.freeze();
    let dup = SlidingSyncList::new("foo".to_owned(), SlidingSyncMode::Selective).freeze();
    frozen.lists.push(dup);
    assert!(SlidingSync::from_frozen(frozen, common_extensions()).is_none());

    let mut bad = SlidingSyncList::new("bar".to_owned(), SlidingSyncMode::Selective).freeze();
    bad.fetched = 3;
    let frozen = FrozenSlidingSync { pos: None, lists: vec![bad] };
    assert!(SlidingSync::from_frozen(frozen, common_extensions()).is_none());
}
