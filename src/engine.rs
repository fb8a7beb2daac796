//! The coordinator: it owns the position cursor, the lists and the room
//! registry, builds one request per round-trip and folds the outcome back in.
//!
//! A round-trip is two calls: [`SlidingSync::begin_step`] hands out the
//! request to send, and [`SlidingSync::complete_step`] takes what the
//! transport brought back. Only one round-trip may be outstanding.
use vstd::prelude::*;
use crate::error::{ConfigurationError, SyncError};
use crate::room_list::{
    clone_strings, covering, entries_view, extend_to, fill_windows, frozen_view,
    lemma_fill_windows_at, strings_view, windows_fit, EntryView, FrozenList, ListView,
    RoomListEntry, SlidingSyncList,
};
use crate::rooms::{
    append_raw_events, apply_deltas, ensure_room, has_room, lemma_apply_delta_grows, merge_raw,
    merge_raw_events, raw_keys_unique, registry_wf, rooms_deltas, DeltaView, RawView,
    RoomRegistry, RoomView,
};
use crate::sync::{raw_events_view, windows_view, ListUpdate, ListWindow, RawEvent, Rooms, SyncResponse};

verus! {

/// Which extensions the engine asks the server for; fixed for a session.
/// Account data, to-device events and one-time key counts come back as
/// payloads of their own; typing notices and read receipts come back as
/// each room's ephemeral events.
#[derive(Clone, Copy, Debug, PartialEq, Eq, Structural)]
pub struct ExtensionsConfig {
    pub account_data: bool,
    pub to_device: bool,
    pub e2ee: bool,
    pub typing: bool,
    pub receipts: bool,
}

/// What one list asks for in a request.
#[derive(Debug)]
pub struct ListRequest {
    pub name: String,
    pub ranges: Vec<(u32, u32)>,
    pub sort: Vec<String>,
    pub filters: Vec<String>,
    pub timeline_limit: Option<u32>,
}

/// The request of one round-trip.
#[derive(Debug)]
pub struct SyncRequest {
    pub pos: Option<String>,
    pub lists: Vec<ListRequest>,
    pub extensions: ExtensionsConfig,
    pub room_subscriptions: Vec<String>,
}

/// What the transport can fail with.
#[derive(Debug)]
pub enum TransportError {
    /// The server did not know the position cursor that was sent.
    UnknownPos,
    /// Any other failure, described.
    Other(String),
}

/// The lists and the rooms that one round-trip changed.
#[derive(Debug)]
pub struct UpdateSummary {
    pub lists: Vec<String>,
    pub rooms: Vec<String>,
}

pub open spec fn opt_view(o: Option<String>) -> Option<Seq<char>> {
    match o {
        Some(s) => Some(s@),
        None => None,
    }
}

pub open spec fn list_names(ls: Seq<ListView>) -> Seq<Seq<char>> {
    ls.map_values(|l: ListView| l.name)
}

/// Whether `j` is the first place where `name` stands.
pub open spec fn is_first(names: Seq<Seq<char>>, name: Seq<char>, j: int) -> bool {
    &&& 0 <= j < names.len()
    &&& names[j] == name
    &&& forall|k: int| 0 <= k < j ==> #[trigger] names[k] != name
}

/// The first place where `name` stands, if it stands anywhere.
pub open spec fn find_name(names: Seq<Seq<char>>, name: Seq<char>) -> Option<int> {
    if exists|j: int| is_first(names, name, j) {
        Some(choose|j: int| is_first(names, name, j))
    } else {
        None
    }
}

pub open spec fn names_unique(names: Seq<Seq<char>>) -> bool {
    forall|i: int, j: int|
        0 <= i < names.len() && 0 <= j < names.len() && i != j ==> #[trigger] names[i] != #[trigger] names[j]
}

pub open spec fn contains_name(names: Seq<Seq<char>>, name: Seq<char>) -> bool {
    exists|j: int| 0 <= j < names.len() && names[j] == name
}

pub proof fn lemma_first_unique(names: Seq<Seq<char>>, name: Seq<char>, j: int)
    requires
        is_first(names, name, j),
    ensures
        find_name(names, name) == Some(j),
{
    let c = choose|c: int| is_first(names, name, c);
    if c < j {
        assert(names[c] != name);
    } else if j < c {
        assert(names[j] != name);
    }
}

pub proof fn lemma_no_first(names: Seq<Seq<char>>, name: Seq<char>)
    requires
        forall|k: int| 0 <= k < names.len() ==> #[trigger] names[k] != name,
    ensures
        find_name(names, name) is None,
        !contains_name(names, name),
{
}

/// The lists once `l` is added: it replaces the list of the same name, or
/// comes after the others.
pub open spec fn lists_with(ls: Seq<ListView>, l: ListView) -> Seq<ListView> {
    match find_name(list_names(ls), l.name) {
        Some(j) => ls.update(j, l),
        None => ls.push(l),
    }
}

/// The lists once the one named `name` is removed, if there is one.
pub open spec fn lists_without(ls: Seq<ListView>, name: Seq<char>) -> Seq<ListView> {
    match find_name(list_names(ls), name) {
        Some(j) => ls.remove(j),
        None => ls,
    }
}

pub open spec fn list_request_view(r: ListRequest, l: ListView) -> bool {
    &&& r.name@ == l.name
    &&& r.ranges@ == l.request_ranges()
    &&& strings_view(r.sort@) == l.sort
    &&& strings_view(r.filters@) == l.filters
    &&& r.timeline_limit == l.timeline_limit
}

pub open spec fn update_names(ups: Seq<ListUpdate>) -> Seq<Seq<char>> {
    ups.map_values(|u: ListUpdate| u.name@)
}

/// A list once the response is folded in: only a list that the request
/// asked for and that the response speaks of changes.
pub open spec fn list_after(l: ListView, fl: Seq<(Seq<char>, u32)>, ups: Seq<ListUpdate>) -> ListView {
    match find_name(in_flight_names(fl), l.name) {
        Some(a) => match find_name(update_names(ups), l.name) {
            Some(b) => l.applied(fl[a].1 as nat, ups[b].count, windows_view(ups[b].windows@)),
            None => l,
        },
        None => l,
    }
}

pub open spec fn lists_after(ls: Seq<ListView>, fl: Seq<(Seq<char>, u32)>, ups: Seq<ListUpdate>) -> Seq<ListView> {
    Seq::new(ls.len(), |i: int| list_after(ls[i], fl, ups))
}

pub open spec fn update_fits(u: ListUpdate) -> bool {
    windows_fit(windows_view(u.windows@), u.count as nat)
}

/// Every window of the response lies below its list's count.
pub open spec fn response_fits(resp: SyncResponse) -> bool {
    forall|k: int| 0 <= k < resp.lists.len() ==> update_fits(#[trigger] resp.lists@[k])
}

/// The names, in order, of the first `n` lists that differ between `olds`
/// and `news`.
pub open spec fn changed_names(olds: Seq<ListView>, news: Seq<ListView>, n: int) -> Seq<Seq<char>>
    decreases n,
{
    if n <= 0 {
        seq![]
    } else if olds[n - 1] != news[n - 1] {
        changed_names(olds, news, n - 1).push(olds[n - 1].name)
    } else {
        changed_names(olds, news, n - 1)
    }
}

/// Every room id that the windows name, in order.
pub open spec fn window_ids(ws: Seq<ListWindow>) -> Seq<Seq<char>>
    decreases ws.len(),
{
    if ws.len() == 0 {
        seq![]
    } else {
        window_ids(ws.drop_last()) + strings_view(ws.last().room_ids@)
    }
}

/// Every room id that the list updates name, in order.
pub open spec fn update_ids(ups: Seq<ListUpdate>) -> Seq<Seq<char>>
    decreases ups.len(),
{
    if ups.len() == 0 {
        seq![]
    } else {
        update_ids(ups.drop_last()) + window_ids(ups.last().windows@)
    }
}

/// The registry with a room for each of the ids, created empty where it was
/// missing.
pub open spec fn ensure_rooms(rs: Seq<RoomView>, ids: Seq<Seq<char>>) -> Seq<RoomView>
    decreases ids.len(),
{
    if ids.len() == 0 {
        rs
    } else {
        ensure_room(ensure_rooms(rs, ids.drop_last()), ids.last())
    }
}

pub open spec fn delta_named(resp: SyncResponse, x: Seq<char>) -> bool {
    exists|k: int| 0 <= k < rooms_deltas(resp.rooms).len() && (#[trigger] rooms_deltas(resp.rooms)[k]).0 == x
}

/// Whether a round-trip that brought `resp` touched room `x`: a delta
/// names it, or a list placed it and it was not known before.
pub open spec fn room_touched(rooms: Seq<RoomView>, resp: SyncResponse, x: Seq<char>) -> bool {
    delta_named(resp, x) || (contains_name(update_ids(resp.lists@), x) && !has_room(rooms, x))
}

/// The engine once a well-formed response is folded in.
pub open spec fn after_response(e: EngineView, fl: Seq<(Seq<char>, u32)>, resp: SyncResponse) -> EngineView {
    EngineView {
        pos: Some(resp.pos@),
        lists: lists_after(e.lists, fl, resp.lists@),
        rooms: ensure_rooms(apply_deltas(e.rooms, rooms_deltas(resp.rooms)), update_ids(resp.lists@)),
        account_data: if e.extensions.account_data {
            merge_raw(e.account_data, raw_events_view(resp.account_data@))
        } else {
            e.account_data
        },
        to_device: if e.extensions.to_device {
            e.to_device + raw_events_view(resp.to_device@)
        } else {
            e.to_device
        },
        one_time_keys: if e.extensions.e2ee {
            otk_view(resp.device_one_time_keys_count@)
        } else {
            e.one_time_keys
        },
        in_flight: None,
        ..e
    }
}

pub open spec fn next_in_flight(ls: Seq<ListView>) -> Seq<(Seq<char>, u32)> {
    ls.map_values(|l: ListView| (l.name, l.next_end() as u32))
}

pub proof fn lemma_apply_deltas_has_room(rs: Seq<RoomView>, ds: Seq<(Seq<char>, DeltaView)>, x: Seq<char>)
    ensures
        has_room(apply_deltas(rs, ds), x) <==> (has_room(rs, x) || exists|k: int| 0 <= k < ds.len() && (#[trigger] ds[k]).0 == x),
    decreases ds.len(),
{
    if ds.len() > 0 {
        let prev = apply_deltas(rs, ds.drop_last());
        lemma_apply_deltas_has_room(rs, ds.drop_last(), x);
        lemma_apply_delta_grows(prev, ds.last().0, ds.last().1);
        let after = apply_deltas(rs, ds);
        if has_room(after, x) && x != ds.last().0 {
            let j = choose|j: int| 0 <= j < after.len() && (#[trigger] after[j]).id == x;
            if has_room(prev, ds.last().0) {
                let i = crate::rooms::room_index(prev, ds.last().0);
                assert(prev[i].id == ds.last().0);
                if j == i {
                    assert(after[j].id == ds.last().0);
                }
                assert(prev[j].id == x);
            } else {
                assert(j < prev.len());
                assert(prev[j].id == x);
            }
        }
        if exists|k: int| 0 <= k < ds.drop_last().len() && (#[trigger] ds.drop_last()[k]).0 == x {
            let k = choose|k: int| 0 <= k < ds.drop_last().len() && (#[trigger] ds.drop_last()[k]).0 == x;
            assert(ds[k].0 == x);
        }
        if exists|k: int| 0 <= k < ds.len() && (#[trigger] ds[k]).0 == x {
            let k = choose|k: int| 0 <= k < ds.len() && (#[trigger] ds[k]).0 == x;
            if k < ds.len() - 1 {
                assert(ds.drop_last()[k].0 == x);
            }
        }
        if has_room(prev, x) {
            crate::rooms::lemma_grows_has_room(prev, after, x);
        }
    }
}

pub proof fn lemma_ensure_rooms_has_room(rs: Seq<RoomView>, ids: Seq<Seq<char>>, x: Seq<char>)
    ensures
        has_room(ensure_rooms(rs, ids), x) <==> (has_room(rs, x) || contains_name(ids, x)),
    decreases ids.len(),
{
    if ids.len() > 0 {
        let prev = ensure_rooms(rs, ids.drop_last());
        lemma_ensure_rooms_has_room(rs, ids.drop_last(), x);
        let after = ensure_rooms(rs, ids);
        if !has_room(prev, ids.last()) {
            assert(after[prev.len() as int].id == ids.last());
            if has_room(after, x) && x != ids.last() {
                let j = choose|j: int| 0 <= j < after.len() && (#[trigger] after[j]).id == x;
                assert(prev[j].id == x);
            }
            if has_room(prev, x) {
                let j = choose|j: int| 0 <= j < prev.len() && (#[trigger] prev[j]).id == x;
                assert(after[j].id == x);
            }
        }
        if contains_name(ids.drop_last(), x) {
            let k = choose|k: int| 0 <= k < ids.drop_last().len() && ids.drop_last()[k] == x;
            assert(ids[k] == x);
        }
        if contains_name(ids, x) && x != ids.last() {
            let k = choose|k: int| 0 <= k < ids.len() && ids[k] == x;
            assert(ids.drop_last()[k] == x);
        }
        if x == ids.last() {
            assert(ids[ids.len() - 1] == x);
        }
    }
}

/// Every filled slot of every list names a room that the registry holds.
pub open spec fn filled_known(rooms: Seq<RoomView>, ls: Seq<ListView>) -> bool {
    forall|i: int, j: int|
        0 <= i < ls.len() && 0 <= j < ls[i].entries.len() && (#[trigger] ls[i].entries[j]) is Filled
            ==> has_room(rooms, ls[i].entries[j]->Filled_0)
}

/// The registry with a room for each filled slot, created empty where it
/// was missing.
pub open spec fn ensure_filled(rs: Seq<RoomView>, es: Seq<EntryView>) -> Seq<RoomView>
    decreases es.len(),
{
    if es.len() == 0 {
        rs
    } else {
        let prev = ensure_filled(rs, es.drop_last());
        match es.last() {
            EntryView::Filled(id) => ensure_room(prev, id),
            _ => prev,
        }
    }
}

pub open spec fn ensure_filled_lists(rs: Seq<RoomView>, ls: Seq<ListView>) -> Seq<RoomView>
    decreases ls.len(),
{
    if ls.len() == 0 {
        rs
    } else {
        ensure_filled(ensure_filled_lists(rs, ls.drop_last()), ls.last().entries)
    }
}

proof fn lemma_covering_named(ws: Seq<ListWindow>, j: int, id: Seq<char>)
    requires
        covering(windows_view(ws), j) == Some(EntryView::Filled(id)),
    ensures
        contains_name(window_ids(ws), id),
    decreases ws.len(),
{
    let wsv = windows_view(ws);
    if ws.len() > 0 {
        assert(windows_view(ws.drop_last()) =~= wsv.drop_last());
        let w = wsv.last();
        let prev = window_ids(ws.drop_last());
        if w.start <= j < w.start + w.room_ids.len() {
            let m = j - w.start;
            assert(w.room_ids[m] == id);
            assert(strings_view(ws.last().room_ids@)[m] == id);
            assert(window_ids(ws)[prev.len() + m] == id);
        } else {
            lemma_covering_named(ws.drop_last(), j, id);
            let k = choose|k: int| 0 <= k < prev.len() && prev[k] == id;
            assert(window_ids(ws)[k] == id);
        }
    }
}

proof fn lemma_update_ids_contain(ups: Seq<ListUpdate>, b: int, id: Seq<char>)
    requires
        0 <= b < ups.len(),
        contains_name(window_ids(ups[b].windows@), id),
    ensures
        contains_name(update_ids(ups), id),
    decreases ups.len(),
{
    let prev = update_ids(ups.drop_last());
    if b == ups.len() - 1 {
        let k = choose|k: int| 0 <= k < window_ids(ups[b].windows@).len() && window_ids(ups[b].windows@)[k] == id;
        assert(update_ids(ups)[prev.len() + k] == id);
    } else {
        assert(ups.drop_last()[b] == ups[b]);
        lemma_update_ids_contain(ups.drop_last(), b, id);
        let k = choose|k: int| 0 <= k < prev.len() && prev[k] == id;
        assert(update_ids(ups)[k] == id);
    }
}

/// A round-trip keeps every filled slot backed by a room: slots it leaves
/// alone name rooms that were there, and the rooms it places are created.
proof fn lemma_filled_known_after(e: EngineView, fl: Seq<(Seq<char>, u32)>, resp: SyncResponse)
    requires
        e.wf(),
        filled_known(e.rooms, e.lists),
        response_fits(resp),
    ensures
        filled_known(after_response(e, fl, resp).rooms, after_response(e, fl, resp).lists),
{
    let a = after_response(e, fl, resp);
    let mid = apply_deltas(e.rooms, rooms_deltas(resp.rooms));
    assert forall|i: int, j: int|
        0 <= i < a.lists.len() && 0 <= j < a.lists[i].entries.len() && (#[trigger] a.lists[i].entries[j]) is Filled implies
        has_room(a.rooms, a.lists[i].entries[j]->Filled_0) by {
        let l = e.lists[i];
        let id = a.lists[i].entries[j]->Filled_0;
        lemma_ensure_rooms_has_room(mid, update_ids(resp.lists@), id);
        lemma_apply_deltas_has_room(e.rooms, rooms_deltas(resp.rooms), id);
        let from_old = j < l.entries.len() && l.entries[j] == EntryView::Filled(id);
        if a.lists[i] != l {
            let ai = find_name(in_flight_names(fl), l.name)->0;
            let b = find_name(update_names(resp.lists@), l.name)->0;
            let u = resp.lists@[b];
            let ext = extend_to(l.entries, u.count as nat);
            crate::room_list::lemma_fill_windows_len(ext, windows_view(u.windows@));
            lemma_fill_windows_at(ext, windows_view(u.windows@), j);
            match covering(windows_view(u.windows@), j) {
                Some(v) => {
                    lemma_covering_named(u.windows@, j, id);
                    lemma_update_ids_contain(resp.lists@, b, id);
                },
                None => {
                    assert(from_old);
                },
            }
        } else {
            assert(from_old);
        }
        if from_old {
            assert(has_room(e.rooms, id));
        }
    }
}

/// What the engine is, as a value.
pub struct EngineView {
    pub pos: Option<Seq<char>>,
    pub lists: Seq<ListView>,
    pub rooms: Seq<RoomView>,
    pub extensions: ExtensionsConfig,
    pub subscriptions: Seq<Seq<char>>,
    pub account_data: Seq<RawView>,
    pub to_device: Seq<RawView>,
    pub one_time_keys: Seq<(Seq<char>, u64)>,
    /// While a round-trip is outstanding: each list that it asked for, by
    /// name, with where its window ended.
    pub in_flight: Option<Seq<(Seq<char>, u32)>>,
}

pub open spec fn otk_view(v: Seq<(String, u64)>) -> Seq<(Seq<char>, u64)> {
    v.map_values(|p: (String, u64)| (p.0@, p.1))
}

pub open spec fn in_flight_view(v: Seq<(String, u32)>) -> Seq<(Seq<char>, u32)> {
    v.map_values(|p: (String, u32)| (p.0@, p.1))
}

pub open spec fn in_flight_names(v: Seq<(Seq<char>, u32)>) -> Seq<Seq<char>> {
    v.map_values(|p: (Seq<char>, u32)| p.0)
}

impl EngineView {
    pub open spec fn wf(self) -> bool {
        &&& forall|i: int| 0 <= i < self.lists.len() ==> (#[trigger] self.lists[i]).wf()
        &&& names_unique(list_names(self.lists))
        &&& registry_wf(self.rooms)
        &&& raw_keys_unique(self.account_data)
        &&& filled_known(self.rooms, self.lists)
    }
}

/// A session as it is persisted: its cursor and every list.
#[derive(Debug)]
pub struct FrozenSlidingSync {
    pub pos: Option<String>,
    pub lists: Vec<FrozenList>,
}

pub open spec fn frozen_lists_view(fs: Seq<FrozenList>) -> Seq<ListView> {
    fs.map_values(|f: FrozenList| frozen_view(f))
}

/// One sliding-sync session.
#[derive(Debug)]
pub struct SlidingSync {
    pos: Option<String>,
    lists: Vec<SlidingSyncList>,
    rooms: RoomRegistry,
    extensions: ExtensionsConfig,
    subscriptions: Vec<String>,
    account_data: Vec<RawEvent>,
    to_device: Vec<RawEvent>,
    one_time_keys: Vec<(String, u64)>,
    in_flight: Option<Vec<(String, u32)>>,
}

pub open spec fn lists_view(ls: Seq<SlidingSyncList>) -> Seq<ListView> {
    ls.map_values(|l: SlidingSyncList| l@)
}

impl View for SlidingSync {
    type V = EngineView;

    closed spec fn view(&self) -> EngineView {
        EngineView {
            pos: opt_view(self.pos),
            lists: lists_view(self.lists@),
            rooms: self.rooms@,
            extensions: self.extensions,
            subscriptions: strings_view(self.subscriptions@),
            account_data: raw_events_view(self.account_data@),
            to_device: raw_events_view(self.to_device@),
            one_time_keys: otk_view(self.one_time_keys@),
            in_flight: match self.in_flight {
                Some(v) => Some(in_flight_view(v@)),
                None => None,
            },
        }
    }
}

fn find_in_flight(v: &Vec<(String, u32)>, name: &String) -> (r: Option<usize>)
    ensures
        r is Some <==> find_name(in_flight_names(in_flight_view(v@)), name@) is Some,
        r is Some ==> find_name(in_flight_names(in_flight_view(v@)), name@) == Some(r->0 as int)
            && r->0 < v.len(),
{
    let ghost names = in_flight_names(in_flight_view(v@));
    let mut i: usize = 0;
    while i < v.len()
        invariant
            i <= v.len(),
            names == in_flight_names(in_flight_view(v@)),
            names.len() == v.len(),
            forall|k: int| 0 <= k < i ==> #[trigger] names[k] != name@,
        decreases v.len() - i,
    {
        if v[i].0 == *name {
            assert(names[i as int] == name@);
            proof { lemma_first_unique(names, name@, i as int); }
            return Some(i);
        }
        i = i + 1;
    }
    proof { lemma_no_first(names, name@); }
    None
}

fn find_update(ups: &Vec<ListUpdate>, name: &String) -> (r: Option<usize>)
    ensures
        r is Some <==> find_name(update_names(ups@), name@) is Some,
        r is Some ==> find_name(update_names(ups@), name@) == Some(r->0 as int) && r->0 < ups.len(),
{
    let ghost names = update_names(ups@);
    let mut i: usize = 0;
    while i < ups.len()
        invariant
            i <= ups.len(),
            names == update_names(ups@),
            names.len() == ups.len(),
            forall|k: int| 0 <= k < i ==> #[trigger] names[k] != name@,
        decreases ups.len() - i,
    {
        if ups[i].name == *name {
            assert(names[i as int] == name@);
            proof { lemma_first_unique(names, name@, i as int); }
            return Some(i);
        }
        i = i + 1;
    }
    proof { lemma_no_first(names, name@); }
    None
}

fn update_fits_exec(u: &ListUpdate) -> (r: bool)
    ensures
        r == update_fits(*u),
{
    let ghost ws = windows_view(u.windows@);
    let mut k: usize = 0;
    while k < u.windows.len()
        invariant
            k <= u.windows.len(),
            ws == windows_view(u.windows@),
            forall|m: int| 0 <= m < k ==> (#[trigger] ws[m]).start + ws[m].room_ids.len() <= u.count,
        decreases u.windows.len() - k,
    {
        let w = &u.windows[k];
        assert(ws[k as int].room_ids.len() == w.room_ids.len());
        if w.start > u.count || w.room_ids.len() > (u.count - w.start) as usize {
            assert(!((ws[k as int]).start + ws[k as int].room_ids.len() <= u.count));
            return false;
        }
        k = k + 1;
    }
    true
}

/// The first list update with a window beyond its count, if any.
fn first_unfit(ups: &Vec<ListUpdate>) -> (r: Option<usize>)
    ensures
        r is None <==> forall|k: int| 0 <= k < ups.len() ==> update_fits(#[trigger] ups@[k]),
        r is Some ==> r->0 < ups.len() && !update_fits(ups@[r->0 as int]),
{
    let mut k: usize = 0;
    while k < ups.len()
        invariant
            k <= ups.len(),
            forall|m: int| 0 <= m < k ==> update_fits(#[trigger] ups@[m]),
        decreases ups.len() - k,
    {
        if !update_fits_exec(&ups[k]) {
            return Some(k);
        }
        k = k + 1;
    }
    None
}

fn contains_string(v: &Vec<String>, x: &String) -> (r: bool)
    ensures
        r == contains_name(strings_view(v@), x@),
{
    let mut i: usize = 0;
    while i < v.len()
        invariant
            i <= v.len(),
            forall|k: int| 0 <= k < i ==> #[trigger] strings_view(v@)[k] != x@,
        decreases v.len() - i,
    {
        if v[i] == *x {
            assert(strings_view(v@)[i as int] == x@);
            return true;
        }
        i = i + 1;
    }
    false
}

/// Adds `x` unless it is there already.
fn push_unique(v: &mut Vec<String>, x: &String)
    requires
        names_unique(strings_view(old(v)@)),
    ensures
        names_unique(strings_view(final(v)@)),
        forall|y: Seq<char>| contains_name(strings_view(final(v)@), y) <==> (contains_name(strings_view(old(v)@), y) || y == x@),
{
    let ghost before = strings_view(v@);
    if !contains_string(v, x) {
        v.push(x.clone());
        assert(strings_view(v@) =~= before.push(x@));
        assert forall|y: Seq<char>| contains_name(strings_view(v@), y) <==> (contains_name(before, y) || y == x@) by {
            if contains_name(before, y) {
                let k = choose|k: int| 0 <= k < before.len() && before[k] == y;
                assert(strings_view(v@)[k] == y);
            }
            if y == x@ {
                assert(strings_view(v@)[before.len() as int] == y);
            }
            if contains_name(strings_view(v@), y) && y != x@ {
                let k = choose|k: int| 0 <= k < strings_view(v@).len() && strings_view(v@)[k] == y;
                assert(before[k] == y);
            }
        }
    }
}

/// Adds the id of every room delta of the response, each once.
fn touch_delta_rooms(sr: &mut Vec<String>, resp: &SyncResponse)
    requires
        strings_view(old(sr)@).len() == 0,
    ensures
        names_unique(strings_view(final(sr)@)),
        forall|x: Seq<char>| contains_name(strings_view(final(sr)@), x) <==> delta_named(*resp, x),
{
    let rooms: &Rooms = &resp.rooms;
    let ghost ds = rooms_deltas(*rooms);
    let ghost nj = rooms.join@.len();
    let ghost nl = rooms.leave@.len();
    assert(ds.len() == nj + nl + rooms.invite@.len());
    let mut k: usize = 0;
    while k < rooms.join.len()
        invariant
            k <= rooms.join.len(),
            ds == rooms_deltas(*rooms),
            names_unique(strings_view(sr@)),
            forall|x: Seq<char>| contains_name(strings_view(sr@), x) <==> exists|m: int| 0 <= m < k && (#[trigger] ds[m]).0 == x,
        decreases rooms.join.len() - k,
    {
        assert(ds[k as int].0 == rooms.join@[k as int].0@);
        push_unique(sr, &rooms.join[k].0);
        assert forall|x: Seq<char>| contains_name(strings_view(sr@), x) <==> exists|m: int| 0 <= m < k + 1 && (#[trigger] ds[m]).0 == x by {
            if exists|m: int| 0 <= m < k + 1 && (#[trigger] ds[m]).0 == x {
                let m = choose|m: int| 0 <= m < k + 1 && (#[trigger] ds[m]).0 == x;
                if m < k {
                    assert(exists|m: int| 0 <= m < k && (#[trigger] ds[m]).0 == x);
                }
            }
        }
        k = k + 1;
    }
    k = 0;
    while k < rooms.leave.len()
        invariant
            k <= rooms.leave.len(),
            ds == rooms_deltas(*rooms),
            nj == rooms.join@.len(),
            names_unique(strings_view(sr@)),
            forall|x: Seq<char>| contains_name(strings_view(sr@), x) <==> exists|m: int| 0 <= m < nj + k && (#[trigger] ds[m]).0 == x,
        decreases rooms.leave.len() - k,
    {
        assert(ds[nj + k].0 == rooms.leave@[k as int].0@);
        push_unique(sr, &rooms.leave[k].0);
        assert forall|x: Seq<char>| contains_name(strings_view(sr@), x) <==> exists|m: int| 0 <= m < nj + k + 1 && (#[trigger] ds[m]).0 == x by {
            if exists|m: int| 0 <= m < nj + k + 1 && (#[trigger] ds[m]).0 == x {
                let m = choose|m: int| 0 <= m < nj + k + 1 && (#[trigger] ds[m]).0 == x;
                if m < nj + k {
                    assert(exists|m: int| 0 <= m < nj + k && (#[trigger] ds[m]).0 == x);
                }
            }
        }
        k = k + 1;
    }
    k = 0;
    while k < rooms.invite.len()
        invariant
            k <= rooms.invite.len(),
            ds == rooms_deltas(*rooms),
            nj == rooms.join@.len(),
            nl == rooms.leave@.len(),
            names_unique(strings_view(sr@)),
            forall|x: Seq<char>| contains_name(strings_view(sr@), x) <==> exists|m: int| 0 <= m < nj + nl + k && (#[trigger] ds[m]).0 == x,
        decreases rooms.invite.len() - k,
    {
        assert(ds[nj + nl + k].0 == rooms.invite@[k as int].0@);
        push_unique(sr, &rooms.invite[k].0);
        assert forall|x: Seq<char>| contains_name(strings_view(sr@), x) <==> exists|m: int| 0 <= m < nj + nl + k + 1 && (#[trigger] ds[m]).0 == x by {
            if exists|m: int| 0 <= m < nj + nl + k + 1 && (#[trigger] ds[m]).0 == x {
                let m = choose|m: int| 0 <= m < nj + nl + k + 1 && (#[trigger] ds[m]).0 == x;
                if m < nj + nl + k {
                    assert(exists|m: int| 0 <= m < nj + nl + k && (#[trigger] ds[m]).0 == x);
                }
            }
        }
        k = k + 1;
    }
}

/// Makes sure every room that a list update places exists, and adds to the
/// touched rooms each one that had to be created.
fn ensure_window_rooms(
    reg: &mut RoomRegistry,
    sr: &mut Vec<String>,
    resp: &SyncResponse,
    Ghost(old_rooms): Ghost<Seq<RoomView>>,
)
    requires
        old(reg).wf(),
        old(reg)@ == apply_deltas(old_rooms, rooms_deltas(resp.rooms)),
        names_unique(strings_view(old(sr)@)),
        forall|x: Seq<char>| contains_name(strings_view(old(sr)@), x) <==> delta_named(*resp, x),
    ensures
        final(reg).wf(),
        final(reg)@ == ensure_rooms(old(reg)@, update_ids(resp.lists@)),
        names_unique(strings_view(final(sr)@)),
        forall|x: Seq<char>| contains_name(strings_view(final(sr)@), x) <==> room_touched(old_rooms, *resp, x),
{
    let ghost base = reg@;
    let ghost ds = rooms_deltas(resp.rooms);
    let ups = &resp.lists;
    let mut a: usize = 0;
    assert(ups@.take(0) =~= seq![]);
    assert forall|x: Seq<char>| contains_name(strings_view(sr@), x) implies has_room(reg@, x) by {
        lemma_apply_deltas_has_room(old_rooms, ds, x);
        assert(delta_named(*resp, x));
    }
    while a < ups.len()
        invariant
            a <= ups.len(),
            ups == &resp.lists,
            reg.wf(),
            base == apply_deltas(old_rooms, ds),
            ds == rooms_deltas(resp.rooms),
            reg@ == ensure_rooms(base, update_ids(ups@.take(a as int))),
            names_unique(strings_view(sr@)),
            forall|x: Seq<char>| contains_name(strings_view(sr@), x) <==> (delta_named(*resp, x)
                || (contains_name(update_ids(ups@.take(a as int)), x) && !has_room(old_rooms, x))),
            forall|x: Seq<char>| contains_name(strings_view(sr@), x) ==> has_room(reg@, x),
        decreases ups.len() - a,
    {
        let ws = &ups[a].windows;
        let ghost done_a = update_ids(ups@.take(a as int));
        let mut b: usize = 0;
        assert(ws@.take(0) =~= seq![]);
        assert(done_a + window_ids(ws@.take(0)) =~= done_a);
        while b < ws.len()
            invariant
                b <= ws.len(),
                reg.wf(),
                base == apply_deltas(old_rooms, ds),
                ds == rooms_deltas(resp.rooms),
                reg@ == ensure_rooms(base, done_a + window_ids(ws@.take(b as int))),
                names_unique(strings_view(sr@)),
                forall|x: Seq<char>| contains_name(strings_view(sr@), x) <==> (delta_named(*resp, x)
                    || (contains_name(done_a + window_ids(ws@.take(b as int)), x) && !has_room(old_rooms, x))),
                forall|x: Seq<char>| contains_name(strings_view(sr@), x) ==> has_room(reg@, x),
            decreases ws.len() - b,
        {
            let ids = &ws[b].room_ids;
            let ghost done_b = done_a + window_ids(ws@.take(b as int));
            let mut c: usize = 0;
            assert(done_b + strings_view(ids@).take(0) =~= done_b);
            while c < ids.len()
                invariant
                    c <= ids.len(),
                    reg.wf(),
                    base == apply_deltas(old_rooms, ds),
                    ds == rooms_deltas(resp.rooms),
                    reg@ == ensure_rooms(base, done_b + strings_view(ids@).take(c as int)),
                    names_unique(strings_view(sr@)),
                    forall|x: Seq<char>| contains_name(strings_view(sr@), x) <==> (delta_named(*resp, x)
                        || (contains_name(done_b + strings_view(ids@).take(c as int), x) && !has_room(old_rooms, x))),
                    forall|x: Seq<char>| contains_name(strings_view(sr@), x) ==> has_room(reg@, x),
                decreases ids.len() - c,
            {
                let ghost done = done_b + strings_view(ids@).take(c as int);
                let ghost y = ids@[c as int]@;
                let ghost cur = reg@;
                assert(done_b + strings_view(ids@).take(c + 1) =~= done.push(y));
                proof {
                    lemma_ensure_rooms_has_room(base, done, y);
                    lemma_apply_deltas_has_room(old_rooms, ds, y);
                }
                let ghost sr_b = strings_view(sr@);
                assert(forall|x: Seq<char>| contains_name(sr_b, x) ==> has_room(cur, x));
                let created = reg.ensure_room(&ids[c]);
                assert((done.push(y)).drop_last() =~= done);
                assert(reg@ == ensure_rooms(base, done.push(y)));
                assert(has_room(reg@, y)) by {
                    if has_room(cur, y) {
                        crate::rooms::lemma_grows_has_room(cur, reg@, y);
                    } else {
                        assert(reg@[cur.len() as int].id == y);
                    }
                }
                assert forall|x: Seq<char>| has_room(cur, x) implies has_room(reg@, x) by {
                    crate::rooms::lemma_grows_has_room(cur, reg@, x);
                }
                if created {
                    assert(!contains_name(sr_b, y));
                    sr.push(ids[c].clone());
                    assert(strings_view(sr@) =~= sr_b.push(y));
                    assert forall|i: int, j: int|
                        0 <= i < strings_view(sr@).len() && 0 <= j < strings_view(sr@).len() && i != j implies
                        #[trigger] strings_view(sr@)[i] != #[trigger] strings_view(sr@)[j] by {
                        if i == sr_b.len() as int {
                            assert(sr_b[j] != y);
                        } else if j == sr_b.len() as int {
                            assert(sr_b[i] != y);
                        }
                    }
                }
                assert forall|x: Seq<char>| #[trigger] contains_name(strings_view(sr@), x) <==> (contains_name(sr_b, x) || (created && x == y)) by {
                    if created {
                        if contains_name(sr_b, x) {
                            let k = choose|k: int| 0 <= k < sr_b.len() && sr_b[k] == x;
                            assert(strings_view(sr@)[k] == x);
                        }
                        if x == y {
                            assert(strings_view(sr@)[sr_b.len() as int] == x);
                        }
                        if contains_name(strings_view(sr@), x) && x != y {
                            let k = choose|k: int| 0 <= k < strings_view(sr@).len() && strings_view(sr@)[k] == x;
                            assert(sr_b[k] == x);
                        }
                    }
                }
                assert forall|x: Seq<char>| #[trigger] contains_name(done.push(y), x) <==> (contains_name(done, x) || x == y) by {
                    if contains_name(done, x) {
                        let k = choose|k: int| 0 <= k < done.len() && done[k] == x;
                        assert(done.push(y)[k] == x);
                    }
                    if x == y {
                        assert(done.push(y)[done.len() as int] == x);
                    }
                    if contains_name(done.push(y), x) && x != y {
                        let k = choose|k: int| 0 <= k < done.push(y).len() && done.push(y)[k] == x;
                        assert(done[k] == x);
                    }
                }
                assert(delta_named(*resp, y) <==> exists|k: int| 0 <= k < ds.len() && (#[trigger] ds[k]).0 == y);
                assert forall|x: Seq<char>| contains_name(strings_view(sr@), x) implies has_room(reg@, x) by {
                    assert(contains_name(sr_b, x) || (created && x == y));
                    if contains_name(sr_b, x) {
                        assert(has_room(cur, x));
                    }
                }
                c = c + 1;
            }
            assert(strings_view(ids@).take(c as int) =~= strings_view(ids@));
            assert(ws@.take(b + 1).drop_last() =~= ws@.take(b as int));
            assert(done_a + window_ids(ws@.take(b + 1)) =~= done_b + strings_view(ids@));
            b = b + 1;
        }
        assert(ws@.take(b as int) =~= ws@);
        assert(ups@.take(a + 1).drop_last() =~= ups@.take(a as int));
        a = a + 1;
    }
    assert(ups@.take(a as int) =~= ups@);
}

/// Folds each list's part of the response into it; returns the names of
/// the lists that changed, in order.
fn fold_lists(lists: &mut Vec<SlidingSyncList>, fl: &Vec<(String, u32)>, ups: &Vec<ListUpdate>) -> (changed: Vec<String>)
    requires
        forall|i: int| 0 <= i < old(lists).len() ==> (#[trigger] old(lists)@[i]).wf(),
        forall|k: int| 0 <= k < ups.len() ==> update_fits(#[trigger] ups@[k]),
    ensures
        forall|i: int| 0 <= i < final(lists).len() ==> (#[trigger] final(lists)@[i]).wf(),
        lists_view(final(lists)@) == lists_after(lists_view(old(lists)@), in_flight_view(fl@), ups@),
        list_names(lists_view(final(lists)@)) == list_names(lists_view(old(lists)@)),
        strings_view(changed@) == changed_names(
            lists_view(old(lists)@),
            lists_view(final(lists)@),
            old(lists).len() as int,
        ),
{
    let ghost olds = lists_view(lists@);
    let ghost news = lists_after(olds, in_flight_view(fl@), ups@);
    let mut changed: Vec<String> = Vec::new();
    let mut i: usize = 0;
    while i < lists.len()
        invariant
            lists.len() == olds.len(),
            i <= lists.len(),
            olds.len() == news.len(),
            news == lists_after(olds, in_flight_view(fl@), ups@),
            forall|k: int| 0 <= k < ups.len() ==> update_fits(#[trigger] ups@[k]),
            forall|k: int| 0 <= k < i ==> (#[trigger] lists@[k])@ == news[k] && lists@[k].wf(),
            forall|k: int| i <= k < lists.len() ==> (#[trigger] lists@[k])@ == olds[k] && lists@[k].wf(),
            forall|k: int| 0 <= k < olds.len() ==> (#[trigger] news[k]).name == olds[k].name,
            strings_view(changed@) == changed_names(olds, news, i as int),
        decreases lists.len() - i,
    {
        let ghost li = lists@[i as int]@;
        let fa = find_in_flight(fl, lists[i].name());
        let fb = find_update(ups, lists[i].name());
        match (fa, fb) {
            (Some(a), Some(b)) => {
                assert(update_fits(ups@[b as int]));
                let ch = lists[i].apply_update(fl[a].1, ups[b].count, &ups[b].windows);
                if ch {
                    changed.push(lists[i].name().clone());
                }
            },
            _ => {},
        }
        assert(lists@[i as int]@ == news[i as int]);
        assert(strings_view(changed@) =~= changed_names(olds, news, i + 1));
        i = i + 1;
    }
    assert(lists_view(lists@) =~= news);
    assert(list_names(lists_view(lists@)) =~= list_names(olds));
    changed
}

/// Makes sure every room that a filled slot names exists.
fn ensure_filled_rooms(reg: &mut RoomRegistry, entries: &Vec<RoomListEntry>)
    requires
        old(reg).wf(),
    ensures
        final(reg).wf(),
        final(reg)@ == ensure_filled(old(reg)@, entries_view(entries@)),
        forall|x: Seq<char>| has_room(old(reg)@, x) ==> has_room(final(reg)@, x),
        forall|j: int| 0 <= j < entries.len() && (#[trigger] entries_view(entries@)[j]) is Filled
            ==> has_room(final(reg)@, entries_view(entries@)[j]->Filled_0),
{
    let ghost base = reg@;
    let ghost ev = entries_view(entries@);
    let mut k: usize = 0;
    assert(ev.take(0) =~= seq![]);
    while k < entries.len()
        invariant
            k <= entries.len(),
            ev == entries_view(entries@),
            reg.wf(),
            reg@ == ensure_filled(base, ev.take(k as int)),
            forall|x: Seq<char>| has_room(base, x) ==> has_room(reg@, x),
            forall|j: int| 0 <= j < k && (#[trigger] ev[j]) is Filled ==> has_room(reg@, ev[j]->Filled_0),
        decreases entries.len() - k,
    {
        let ghost cur = reg@;
        assert(ev.take(k + 1).drop_last() =~= ev.take(k as int));
        assert(ev.take(k + 1).last() == ev[k as int]);
        match &entries[k] {
            RoomListEntry::Filled(id) => {
                reg.ensure_room(id);
                assert forall|x: Seq<char>| has_room(cur, x) implies has_room(reg@, x) by {
                    let j = choose|j: int| 0 <= j < cur.len() && (#[trigger] cur[j]).id == x;
                    assert(reg@[j].id == x);
                }
                assert(has_room(reg@, id@)) by {
                    if !has_room(cur, id@) {
                        assert(reg@[cur.len() as int].id == id@);
                    }
                }
            },
            _ => {},
        }
        k = k + 1;
    }
    assert(ev.take(k as int) =~= ev);
}

impl SlidingSync {
    pub open spec fn wf(&self) -> bool {
        self@.wf()
    }

    /// A session with no cursor, no lists and no rooms yet.
    pub fn new(extensions: ExtensionsConfig) -> (r: Self)
        ensures
            r.wf(),
            r@ == (EngineView {
                pos: None,
                lists: seq![],
                rooms: seq![],
                extensions,
                subscriptions: seq![],
                account_data: seq![],
                to_device: seq![],
                one_time_keys: seq![],
                in_flight: None,
            }),
    {
        let r = SlidingSync {
            pos: None,
            lists: Vec::new(),
            rooms: RoomRegistry::new(),
            extensions,
            subscriptions: Vec::new(),
            account_data: Vec::new(),
            to_device: Vec::new(),
            one_time_keys: Vec::new(),
            in_flight: None,
        };
        assert(lists_view(r.lists@) =~= seq![]);
        assert(strings_view(r.subscriptions@) =~= seq![]);
        assert(raw_events_view(r.account_data@) =~= seq![]);
        assert(raw_events_view(r.to_device@) =~= seq![]);
        assert(otk_view(r.one_time_keys@) =~= seq![]);
        r
    }

    /// Where the list of this name stands.
    fn find_list(&self, name: &String) -> (r: Option<usize>)
        ensures
            r is Some <==> find_name(list_names(self@.lists), name@) is Some,
            r is Some ==> find_name(list_names(self@.lists), name@) == Some(r->0 as int)
                && r->0 < self@.lists.len(),
    {
        let ghost names = list_names(self@.lists);
        let mut i: usize = 0;
        while i < self.lists.len()
            invariant
                i <= self.lists.len(),
                names == list_names(lists_view(self.lists@)),
                names.len() == self.lists.len(),
                forall|k: int| 0 <= k < i ==> #[trigger] names[k] != name@,
            decreases self.lists.len() - i,
        {
            if *self.lists[i].name() == *name {
                assert(names[i as int] == name@);
                proof { lemma_first_unique(names, name@, i as int); }
                return Some(i);
            }
            i = i + 1;
        }
        proof { lemma_no_first(names, name@); }
        None
    }

    /// The list of this name, if it was added.
    pub fn list(&self, name: &String) -> (r: Option<&SlidingSyncList>)
        ensures
            r is Some <==> find_name(list_names(self@.lists), name@) is Some,
            r is Some ==> r->0@ == self@.lists[find_name(list_names(self@.lists), name@)->0],
    {
        match self.find_list(name) {
            Some(i) => Some(&self.lists[i]),
            None => None,
        }
    }

    pub fn lists(&self) -> (r: &Vec<SlidingSyncList>)
        ensures
            lists_view(r@) == self@.lists,
    {
        &self.lists
    }

    pub fn rooms(&self) -> (r: &RoomRegistry)
        ensures
            r@ == self@.rooms,
            r.wf() <== self.wf(),
    {
        &self.rooms
    }

    pub fn pos(&self) -> (r: &Option<String>)
        ensures
            opt_view(*r) == self@.pos,
    {
        &self.pos
    }

    /// Adds a list, visible to the next request built. A list of the same
    /// name is replaced, and handed back.
    pub fn add_list(&mut self, list: SlidingSyncList) -> (r: Option<SlidingSyncList>)
        requires
            old(self).wf(),
            list.wf(),
        ensures
            final(self).wf(),
            final(self)@ == (EngineView {
                lists: lists_with(old(self)@.lists, list@),
                rooms: ensure_filled(old(self)@.rooms, list@.entries),
                ..old(self)@
            }),
            r is Some <==> find_name(list_names(old(self)@.lists), list@.name) is Some,
            r is Some ==> r->0@ == old(self)@.lists[find_name(list_names(old(self)@.lists), list@.name)->0],
    {
        let ghost start = self@;
        let entries = list.room_list();
        ensure_filled_rooms(&mut self.rooms, entries);
        let ghost before = self@;
        let ghost lv = list@;
        assert forall|i: int, j: int|
            0 <= i < before.lists.len() && 0 <= j < before.lists[i].entries.len()
                && (#[trigger] before.lists[i].entries[j]) is Filled implies
            has_room(before.rooms, before.lists[i].entries[j]->Filled_0) by {
            assert(has_room(start.rooms, before.lists[i].entries[j]->Filled_0));
        }
        assert forall|j: int| 0 <= j < lv.entries.len() && (#[trigger] lv.entries[j]) is Filled implies
            has_room(before.rooms, lv.entries[j]->Filled_0) by {
            assert(entries_view(entries@)[j] == lv.entries[j]);
        }
        match self.find_list(list.name()) {
            Some(i) => {
                let mut old_list = list;
                std::mem::swap(&mut self.lists[i], &mut old_list);
                assert(lists_view(self.lists@) =~= before.lists.update(i as int, lv));
                assert(list_names(self@.lists) =~= list_names(before.lists));
                assert(self@ == (EngineView { lists: lists_with(before.lists, lv), ..before }));
                assert forall|a: int, j: int|
                    0 <= a < self@.lists.len() && 0 <= j < self@.lists[a].entries.len()
                        && (#[trigger] self@.lists[a].entries[j]) is Filled implies
                    has_room(self@.rooms, self@.lists[a].entries[j]->Filled_0) by {
                    if a != i {
                        assert(self@.lists[a] == before.lists[a]);
                    }
                }
                Some(old_list)
            },
            None => {
                self.lists.push(list);
                assert(lists_view(self.lists@) =~= before.lists.push(lv));
                assert(list_names(self@.lists) =~= list_names(before.lists).push(lv.name));
                assert forall|a: int, j: int|
                    0 <= a < self@.lists.len() && 0 <= j < self@.lists[a].entries.len()
                        && (#[trigger] self@.lists[a].entries[j]) is Filled implies
                    has_room(self@.rooms, self@.lists[a].entries[j]->Filled_0) by {
                    if a < before.lists.len() {
                        assert(self@.lists[a] == before.lists[a]);
                    }
                }
                assert(forall|k: int| 0 <= k < list_names(before.lists).len() ==>
                    #[trigger] list_names(before.lists)[k] != lv.name) by {
                    if exists|k: int| 0 <= k < list_names(before.lists).len()
                        && #[trigger] list_names(before.lists)[k] == lv.name {
                        let k = choose|k: int| 0 <= k < list_names(before.lists).len()
                            && #[trigger] list_names(before.lists)[k] == lv.name;
                        lemma_least_first(list_names(before.lists), lv.name, k);
                    }
                }
                None
            },
        }
    }

    /// Removes the list of this name, visible to the next request built,
    /// and hands it back.
    pub fn remove_list(&mut self, name: &String) -> (r: Option<SlidingSyncList>)
        requires
            old(self).wf(),
        ensures
            final(self).wf(),
            final(self)@ == (EngineView { lists: lists_without(old(self)@.lists, name@), ..old(self)@ }),
            r is Some <==> find_name(list_names(old(self)@.lists), name@) is Some,
            r is Some ==> r->0@ == old(self)@.lists[find_name(list_names(old(self)@.lists), name@)->0],
    {
        let ghost before = self@;
        match self.find_list(name) {
            Some(i) => {
                let l = self.lists.remove(i);
                assert(lists_view(self.lists@) =~= before.lists.remove(i as int));
                assert(list_names(self@.lists) =~= list_names(before.lists).remove(i as int));
                Some(l)
            },
            None => None,
        }
    }

    /// Sets the ranges of the selective list of this name; see
    /// [`SlidingSyncList::set_ranges`].
    pub fn set_list_ranges(&mut self, name: &String, ranges: Vec<(u32, u32)>) -> (r: Result<(), SyncError>)
        requires
            old(self).wf(),
        ensures
            final(self).wf(),
            find_name(list_names(old(self)@.lists), name@) is None ==> final(self)@ == old(self)@
                && (r matches Err(SyncError::Configuration(ConfigurationError::UnknownList(n))) && n@ == name@),
            find_name(list_names(old(self)@.lists), name@) matches Some(j) ==> {
                let l = old(self)@.lists[j];
                &&& l.mode is Selective ==> r is Ok && final(self)@ == (EngineView {
                    lists: old(self)@.lists.update(j, l.with_ranges(ranges@)),
                    ..old(self)@
                })
                &&& l.mode is Growing ==> final(self)@ == old(self)@ && (r matches Err(
                    SyncError::Configuration(ConfigurationError::RangesOnGrowingList),
                ))
            },
    {
        let ghost before = self@;
        match self.find_list(name) {
            Some(i) => {
                let res = self.lists[i].set_ranges(ranges);
                assert(lists_view(self.lists@) =~= before.lists.update(i as int, self.lists@[i as int]@));
                assert(list_names(self@.lists) =~= list_names(before.lists));
                match res {
                    Ok(()) => Ok(()),
                    Err(e) => {
                        assert(lists_view(self.lists@) =~= before.lists);
                        Err(SyncError::Configuration(e))
                    },
                }
            },
            None => Err(SyncError::Configuration(ConfigurationError::UnknownList(name.clone()))),
        }
    }

    /// Sets the timeline limit of the list of this name, for the next
    /// requests.
    pub fn set_list_timeline_limit(&mut self, name: &String, limit: Option<u32>) -> (r: Result<(), SyncError>)
        requires
            old(self).wf(),
        ensures
            final(self).wf(),
            find_name(list_names(old(self)@.lists), name@) is None ==> final(self)@ == old(self)@
                && (r matches Err(SyncError::Configuration(ConfigurationError::UnknownList(n))) && n@ == name@),
            find_name(list_names(old(self)@.lists), name@) matches Some(j) ==> r is Ok && final(self)@ == (EngineView {
                lists: old(self)@.lists.update(j, ListView { timeline_limit: limit, ..old(self)@.lists[j] }),
                ..old(self)@
            }),
    {
        let ghost before = self@;
        match self.find_list(name) {
            Some(i) => {
                self.lists[i].set_timeline_limit(limit);
                assert(lists_view(self.lists@) =~= before.lists.update(i as int, self.lists@[i as int]@));
                assert(list_names(self@.lists) =~= list_names(before.lists));
                assert forall|a: int, j: int|
                    0 <= a < self@.lists.len() && 0 <= j < self@.lists[a].entries.len()
                        && (#[trigger] self@.lists[a].entries[j]) is Filled implies
                    has_room(self@.rooms, self@.lists[a].entries[j]->Filled_0) by {
                    assert(self@.lists[a].entries == before.lists[a].entries);
                }
                Ok(())
            },
            None => Err(SyncError::Configuration(ConfigurationError::UnknownList(name.clone()))),
        }
    }

    /// Asks for updates of this room in every request, whatever the lists
    /// show.
    pub fn subscribe_to_room(&mut self, id: String)
        requires
            old(self).wf(),
        ensures
            final(self).wf(),
            contains_name(old(self)@.subscriptions, id@) ==> final(self)@ == old(self)@,
            !contains_name(old(self)@.subscriptions, id@) ==> final(self)@ == (EngineView {
                subscriptions: old(self)@.subscriptions.push(id@),
                ..old(self)@
            }),
    {
        let ghost before = self@;
        let mut i: usize = 0;
        while i < self.subscriptions.len()
            invariant
                i <= self.subscriptions.len(),
                self@ == before,
                before == old(self)@,
                before.wf(),
                forall|k: int| 0 <= k < i ==> #[trigger] strings_view(self.subscriptions@)[k] != id@,
            decreases self.subscriptions.len() - i,
        {
            if self.subscriptions[i] == id {
                assert(strings_view(self.subscriptions@)[i as int] == id@);
                return;
            }
            i = i + 1;
        }
        self.subscriptions.push(id);
        assert(strings_view(self.subscriptions@) =~= before.subscriptions.push(id@));
    }

    /// Starts a round-trip: hands out the request to send, built from the
    /// cursor, every list's window, the extensions and the room
    /// subscriptions. Refused while another round-trip is outstanding.
    pub fn begin_step(&mut self) -> (r: Result<SyncRequest, SyncError>)
        requires
            old(self).wf(),
        ensures
            final(self).wf(),
            old(self)@.in_flight is Some ==> final(self)@ == old(self)@ && (r matches Err(
                SyncError::Configuration(ConfigurationError::StepInFlight),
            )),
            old(self)@.in_flight is None ==> r is Ok && ({
                let req = r->Ok_0;
                &&& opt_view(req.pos) == old(self)@.pos
                &&& req.extensions == old(self)@.extensions
                &&& strings_view(req.room_subscriptions@) == old(self)@.subscriptions
                &&& req.lists.len() == old(self)@.lists.len()
                &&& forall|i: int| 0 <= i < req.lists.len() ==>
                    list_request_view(#[trigger] req.lists@[i], old(self)@.lists[i])
                &&& final(self)@ == (EngineView {
                    in_flight: Some(next_in_flight(old(self)@.lists)),
                    ..old(self)@
                })
            }),
    {
        if self.in_flight.is_some() {
            return Err(SyncError::Configuration(ConfigurationError::StepInFlight));
        }
        let ghost ls = self@.lists;
        let mut lists: Vec<ListRequest> = Vec::new();
        let mut fl: Vec<(String, u32)> = Vec::new();
        let mut i: usize = 0;
        while i < self.lists.len()
            invariant
                i <= self.lists.len(),
                ls == lists_view(self.lists@),
                self@.wf(),
                lists.len() == i,
                fl.len() == i,
                forall|k: int| 0 <= k < i ==> list_request_view(#[trigger] lists@[k], ls[k]),
                in_flight_view(fl@) == next_in_flight(ls).take(i as int),
            decreases self.lists.len() - i,
        {
            let l = &self.lists[i];
            assert(ls[i as int] == l@);
            assert(l.wf());
            let end = l.next_end();
            lists.push(ListRequest {
                name: l.name().clone(),
                ranges: l.request_ranges(),
                sort: clone_strings(l.sort()),
                filters: clone_strings(l.filters()),
                timeline_limit: l.timeline_limit(),
            });
            fl.push((l.name().clone(), end));
            assert(in_flight_view(fl@) =~= next_in_flight(ls).take(i + 1));
            i = i + 1;
        }
        assert(next_in_flight(ls).take(i as int) =~= next_in_flight(ls));
        let req = SyncRequest {
            pos: match &self.pos {
                Some(p) => Some(p.clone()),
                None => None,
            },
            lists,
            extensions: self.extensions,
            room_subscriptions: clone_strings(&self.subscriptions),
        };
        self.in_flight = Some(fl);
        Ok(req)
    }

    /// Ends the outstanding round-trip with what the transport brought
    /// back, and says what changed.
    ///
    /// A rejected cursor is cleared, and reported once; any other transport
    /// failure, or a response with a window beyond its list's count, is
    /// reported and changes nothing. Otherwise the new cursor is kept, room
    /// deltas are merged, every room a list places exists afterwards, each
    /// list that was asked for folds in its part, and the enabled
    /// extensions take their payloads. The summary names exactly the lists
    /// that changed and the rooms that were touched.
    pub fn complete_step(&mut self, result: Result<SyncResponse, TransportError>) -> (r: Result<UpdateSummary, SyncError>)
        requires
            old(self).wf(),
        ensures
            final(self).wf(),
            old(self)@.in_flight is None ==> final(self)@ == old(self)@ && (r matches Err(
                SyncError::Configuration(ConfigurationError::NoStepInFlight),
            )),
            old(self)@.in_flight is Some ==> match result {
                Err(TransportError::UnknownPos) => (r matches Err(SyncError::UnknownPosition))
                    && final(self)@ == (EngineView { pos: None, in_flight: None, ..old(self)@ }),
                Err(TransportError::Other(m)) => (r matches Err(SyncError::Transport(m2)) && m2@ == m@)
                    && final(self)@ == (EngineView { in_flight: None, ..old(self)@ }),
                Ok(resp) => if response_fits(resp) {
                    &&& r is Ok
                    &&& final(self)@ == after_response(old(self)@, old(self)@.in_flight->0, resp)
                    &&& strings_view(r->Ok_0.lists@) == changed_names(
                        old(self)@.lists,
                        final(self)@.lists,
                        old(self)@.lists.len() as int,
                    )
                    &&& names_unique(strings_view(r->Ok_0.rooms@))
                    &&& forall|x: Seq<char>| contains_name(strings_view(r->Ok_0.rooms@), x)
                        <==> room_touched(old(self)@.rooms, resp, x)
                } else {
                    &&& (r matches Err(SyncError::Protocol(n)) && exists|k: int|
                        0 <= k < resp.lists.len() && resp.lists@[k].name@ == n@ && !update_fits(resp.lists@[k]))
                    &&& final(self)@ == (EngineView { in_flight: None, ..old(self)@ })
                },
            },
    {
        let ghost before = self@;
        let mut taken: Option<Vec<(String, u32)>> = None;
        std::mem::swap(&mut taken, &mut self.in_flight);
        let fl = match taken {
            None => {
                return Err(SyncError::Configuration(ConfigurationError::NoStepInFlight));
            },
            Some(fl) => fl,
        };
        assert(in_flight_view(fl@) == before.in_flight->0);
        match result {
            Err(TransportError::UnknownPos) => {
                self.pos = None;
                assert(self@.lists == before.lists && self@.rooms == before.rooms);
                Err(SyncError::UnknownPosition)
            },
            Err(TransportError::Other(m)) => Err(SyncError::Transport(m)),
            Ok(resp) => {
                match first_unfit(&resp.lists) {
                    Some(k) => {
                        return Err(SyncError::Protocol(resp.lists[k].name.clone()));
                    },
                    None => {},
                }
                let ghost old_rooms = self.rooms@;
                let mut sr: Vec<String> = Vec::new();
                touch_delta_rooms(&mut sr, &resp);
                self.rooms.apply_rooms(&resp.rooms);
                ensure_window_rooms(&mut self.rooms, &mut sr, &resp, Ghost(old_rooms));
                assert forall|i: int| 0 <= i < self.lists.len() implies (#[trigger] self.lists@[i]).wf() by {
                    assert(lists_view(self.lists@)[i].wf());
                }
                let changed = fold_lists(&mut self.lists, &fl, &resp.lists);
                if self.extensions.account_data {
                    merge_raw_events(&mut self.account_data, &resp.account_data);
                }
                if self.extensions.to_device {
                    append_raw_events(&mut self.to_device, &resp.to_device);
                }
                if self.extensions.e2ee {
                    self.one_time_keys = resp.device_one_time_keys_count;
                }
                self.pos = Some(resp.pos);
                assert(self@ == after_response(before, in_flight_view(fl@), resp));
                proof {
                    lemma_filled_known_after(before, in_flight_view(fl@), resp);
                }
                Ok(UpdateSummary { lists: changed, rooms: sr })
            },
        }
    }

    /// The session as it is persisted: the cursor and every list.
    pub fn freeze(&self) -> (r: FrozenSlidingSync)
        ensures
            opt_view(r.pos) == self@.pos,
            frozen_lists_view(r.lists@) == self@.lists,
    {
        let mut lists: Vec<FrozenList> = Vec::new();
        let mut i: usize = 0;
        while i < self.lists.len()
            invariant
                i <= self.lists.len(),
                frozen_lists_view(lists@) == lists_view(self.lists@).take(i as int),
            decreases self.lists.len() - i,
        {
            let f = self.lists[i].freeze();
            let ghost prev = frozen_lists_view(lists@);
            lists.push(f);
            assert(frozen_lists_view(lists@) =~= prev.push(frozen_view(f)));
            assert(frozen_lists_view(lists@) =~= lists_view(self.lists@).take(i + 1));
            i = i + 1;
        }
        assert(lists_view(self.lists@).take(i as int) =~= lists_view(self.lists@));
        FrozenSlidingSync {
            pos: match &self.pos {
                Some(p) => Some(p.clone()),
                None => None,
            },
            lists,
        }
    }

    /// A session restored from what was persisted, with no network work:
    /// the cursor and the lists exactly as they were, and an empty room for
    /// each room that a filled slot names. Nothing
    /// if a record is not a well-formed list or two lists share a name.
    pub fn from_frozen(frozen: FrozenSlidingSync, extensions: ExtensionsConfig) -> (r: Option<Self>)
        ensures
            r is Some <==> ((forall|i: int| 0 <= i < frozen.lists.len() ==> (#[trigger] frozen_lists_view(frozen.lists@)[i]).wf())
                && names_unique(list_names(frozen_lists_view(frozen.lists@)))),
            r is Some ==> r->0.wf() && r->0@ == (EngineView {
                pos: opt_view(frozen.pos),
                lists: frozen_lists_view(frozen.lists@),
                rooms: ensure_filled_lists(seq![], frozen_lists_view(frozen.lists@)),
                extensions,
                subscriptions: seq![],
                account_data: seq![],
                to_device: seq![],
                one_time_keys: seq![],
                in_flight: None,
            }),
    {
        let ghost fv = frozen_lists_view(frozen.lists@);
        let mut engine = SlidingSync::new(extensions);
        engine.pos = frozen.pos;
        let mut fl = frozen.lists;
        assert(frozen_lists_view(fl@) =~= fv.skip(0));
        assert(fv.take(0) =~= seq![]);
        assert(lists_view(engine.lists@) =~= seq![]);
        while fl.len() > 0
            invariant
                fv == frozen_lists_view(frozen.lists@),
                fl.len() <= fv.len(),
                frozen_lists_view(fl@) == fv.skip(fv.len() - fl.len()),
                engine@.wf(),
                engine@ == (EngineView {
                    pos: opt_view(frozen.pos),
                    lists: fv.take(fv.len() - fl.len()),
                    rooms: ensure_filled_lists(seq![], fv.take(fv.len() - fl.len())),
                    extensions,
                    subscriptions: seq![],
                    account_data: seq![],
                    to_device: seq![],
                    one_time_keys: seq![],
                    in_flight: None,
                }),
                forall|i: int| 0 <= i < fv.len() - fl.len() ==> (#[trigger] fv[i]).wf(),
            decreases fl.len(),
        {
            let ghost n = fv.len() - fl.len();
            assert(frozen_lists_view(fl@)[0] == fv[n]);
            let ghost prev = frozen_lists_view(fl@);
            let f = fl.remove(0);
            assert(frozen_view(f) == fv[n]);
            assert(frozen_lists_view(fl@) =~= prev.skip(1));
            assert(frozen_lists_view(fl@) =~= fv.skip(n + 1));
            let l = match SlidingSyncList::from_frozen(f) {
                Some(l) => l,
                None => {
                    assert(!fv[n].wf());
                    return None;
                },
            };
            match engine.find_list(l.name()) {
                Some(j) => {
                    assert(engine@.lists[j as int] == fv[j as int]);
                    assert(list_names(fv)[j as int] == list_names(fv)[n]);
                    assert(!names_unique(list_names(fv)));
                    return None;
                },
                None => {},
            }
            let ghost before = engine@;
            assert forall|k: int| 0 <= k < n implies #[trigger] list_names(before.lists)[k] != fv[n].name by {
                if list_names(before.lists)[k] == fv[n].name {
                    lemma_least_first(list_names(before.lists), fv[n].name, k);
                }
            }
            engine.add_list(l);
            assert(fv.take(n + 1).drop_last() =~= fv.take(n));
            assert(engine@.lists =~= fv.take(n + 1));
        }
        assert(fv.take(fv.len() as int) =~= fv);
        Some(engine)
    }

    /// Gives up the outstanding round-trip, if any, as when its response
    /// is dropped: the cursor, the lists and the rooms stay at their last
    /// known good values, and a new round-trip may start.
    pub fn cancel_step(&mut self)
        requires
            old(self).wf(),
        ensures
            final(self).wf(),
            final(self)@ == (EngineView { in_flight: None, ..old(self)@ }),
    {
        self.in_flight = None;
    }

    /// Whether a round-trip is outstanding.
    pub fn is_step_in_flight(&self) -> (r: bool)
        ensures
            r == self@.in_flight is Some,
    {
        self.in_flight.is_some()
    }

    pub fn extensions(&self) -> (r: ExtensionsConfig)
        ensures
            r == self@.extensions,
    {
        self.extensions
    }

    /// The global account data, one event per event type.
    pub fn account_data(&self) -> (r: &Vec<RawEvent>)
        ensures
            raw_events_view(r@) == self@.account_data,
    {
        &self.account_data
    }

    /// For each key algorithm, the count of one-time keys the server last
    /// reported.
    pub fn one_time_keys(&self) -> (r: &Vec<(String, u64)>)
        ensures
            otk_view(r@) == self@.one_time_keys,
    {
        &self.one_time_keys
    }

    pub fn room_subscriptions(&self) -> (r: &Vec<String>)
        ensures
            strings_view(r@) == self@.subscriptions,
    {
        &self.subscriptions
    }

    /// Replaces the position cursor: a cursor restored from storage, or one
    /// that the server will reject, to test the recovery.
    pub fn set_pos(&mut self, pos: Option<String>)
        requires
            old(self).wf(),
        ensures
            final(self).wf(),
            final(self)@ == (EngineView { pos: opt_view(pos), ..old(self)@ }),
    {
        self.pos = pos;
    }

    /// Hands out the to-device events received so far, and forgets them.
    pub fn take_to_device(&mut self) -> (r: Vec<RawEvent>)
        requires
            old(self).wf(),
        ensures
            final(self).wf(),
            raw_events_view(r@) == old(self)@.to_device,
            final(self)@ == (EngineView { to_device: seq![], ..old(self)@ }),
    {
        let mut r: Vec<RawEvent> = Vec::new();
        std::mem::swap(&mut r, &mut self.to_device);
        assert(raw_events_view(self.to_device@) =~= seq![]);
        r
    }
}

pub proof fn lemma_least_first(names: Seq<Seq<char>>, name: Seq<char>, k: int)
    requires
        0 <= k < names.len(),
        names[k] == name,
    ensures
        exists|j: int| is_first(names, name, j),
    decreases k,
{
    if exists|m: int| 0 <= m < k && #[trigger] names[m] == name {
        let m = choose|m: int| 0 <= m < k && #[trigger] names[m] == name;
        lemma_least_first(names, name, m);
    } else {
        assert(is_first(names, name, k));
    }
}

} // verus!
