//! One configured list: its window mode, the window it asks for, and the
//! ordered slots that the server's positions are folded into.
use vstd::prelude::*;
use crate::error::ConfigurationError;
use crate::sync::{windows_view, ListWindow, WindowView};

verus! {

/// One position of a list's window.
#[derive(Debug, PartialEq, Eq)]
pub enum RoomListEntry {
    /// Never filled.
    Empty,
    /// Filled once, now outside the window: the room id is kept, but stale.
    Invalidated(String),
    /// Filled by the server with this room.
    Filled(String),
}

/// What a slot holds, with room ids as character sequences.
pub enum EntryView {
    Empty,
    Invalidated(Seq<char>),
    Filled(Seq<char>),
}

impl EntryView {
    /// The slot once it has left the window: a filled slot keeps its room id
    /// as a stale one, any other slot is left as it is.
    pub open spec fn invalidated(self) -> EntryView {
        match self {
            EntryView::Filled(id) => EntryView::Invalidated(id),
            _ => self,
        }
    }

    pub open spec fn room_id(self) -> Option<Seq<char>> {
        match self {
            EntryView::Empty => None,
            EntryView::Invalidated(id) => Some(id),
            EntryView::Filled(id) => Some(id),
        }
    }
}

impl View for RoomListEntry {
    type V = EntryView;

    open spec fn view(&self) -> EntryView {
        match self {
            RoomListEntry::Empty => EntryView::Empty,
            RoomListEntry::Invalidated(id) => EntryView::Invalidated(id@),
            RoomListEntry::Filled(id) => EntryView::Filled(id@),
        }
    }
}

impl Clone for RoomListEntry {
    fn clone(&self) -> (r: Self)
        ensures
            r@ == self@,
    {
        match self {
            RoomListEntry::Empty => RoomListEntry::Empty,
            RoomListEntry::Invalidated(id) => RoomListEntry::Invalidated(id.clone()),
            RoomListEntry::Filled(id) => RoomListEntry::Filled(id.clone()),
        }
    }
}

impl RoomListEntry {
    pub fn is_empty(&self) -> (r: bool)
        ensures
            r == (self@ is Empty),
    {
        match self {
            RoomListEntry::Empty => true,
            _ => false,
        }
    }

    pub fn is_invalidated(&self) -> (r: bool)
        ensures
            r == (self@ is Invalidated),
    {
        match self {
            RoomListEntry::Invalidated(_) => true,
            _ => false,
        }
    }

    pub fn is_filled(&self) -> (r: bool)
        ensures
            r == (self@ is Filled),
    {
        match self {
            RoomListEntry::Filled(_) => true,
            _ => false,
        }
    }

    /// The room id that the slot holds, stale or not.
    pub fn room_id(&self) -> (r: Option<String>)
        ensures
            r is Some <==> self@.room_id() is Some,
            r is Some ==> r->0@ == self@.room_id()->0,
    {
        match self {
            RoomListEntry::Empty => None,
            RoomListEntry::Invalidated(id) => Some(id.clone()),
            RoomListEntry::Filled(id) => Some(id.clone()),
        }
    }

    /// Whether two slots hold the same thing.
    pub fn same_as(&self, other: &RoomListEntry) -> (r: bool)
        ensures
            r == (self@ == other@),
    {
        match (self, other) {
            (RoomListEntry::Empty, RoomListEntry::Empty) => true,
            (RoomListEntry::Invalidated(a), RoomListEntry::Invalidated(b)) => *a == *b,
            (RoomListEntry::Filled(a), RoomListEntry::Filled(b)) => *a == *b,
            _ => false,
        }
    }

    fn to_invalidated(&self) -> (r: RoomListEntry)
        ensures
            r@ == self@.invalidated(),
    {
        match self {
            RoomListEntry::Filled(id) => RoomListEntry::Invalidated(id.clone()),
            _ => self.clone(),
        }
    }
}

pub open spec fn entries_view(s: Seq<RoomListEntry>) -> Seq<EntryView> {
    s.map_values(|e: RoomListEntry| e@)
}

pub open spec fn strings_view(s: Seq<String>) -> Seq<Seq<char>> {
    s.map_values(|x: String| x@)
}

/// How a list's window is chosen.
#[derive(Clone, Copy, Debug, PartialEq, Eq, Structural)]
pub enum SlidingSyncMode {
    /// The caller sets the ranges; the list never changes them.
    Selective,
    /// The window starts at index 0 and grows by `batch_size` each
    /// round-trip, until it covers every room the server counts, or
    /// `maximum_number_of_rooms_to_fetch` of them.
    Growing { batch_size: u32, maximum_number_of_rooms_to_fetch: Option<u32> },
}

/// How far a list has been loaded.
#[derive(Clone, Copy, Debug, PartialEq, Eq, Structural)]
pub enum SlidingSyncState {
    /// No response has been folded in yet.
    NotLoaded,
    /// The window covers only part of the rooms that the list may reach.
    PartiallyLoaded,
    /// The window covers every room that the list may reach.
    FullyLoaded,
}

/// Whether index `i` lies in one of the closed ranges.
pub open spec fn in_ranges(ranges: Seq<(u32, u32)>, i: int) -> bool {
    exists|k: int| 0 <= k < ranges.len() && (#[trigger] ranges[k]).0 <= i <= ranges[k].1
}

/// Every filled slot outside the ranges becomes invalidated; nothing else
/// changes.
pub open spec fn invalidate_outside(entries: Seq<EntryView>, ranges: Seq<(u32, u32)>) -> Seq<EntryView> {
    Seq::new(
        entries.len(),
        |i: int| if in_ranges(ranges, i) { entries[i] } else { entries[i].invalidated() },
    )
}

/// The slots grown with empty ones up to `n`; never shortened.
pub open spec fn extend_to(entries: Seq<EntryView>, n: nat) -> Seq<EntryView> {
    if n <= entries.len() {
        entries
    } else {
        entries + Seq::new((n - entries.len()) as nat, |i: int| EntryView::Empty)
    }
}

/// The slots with the first `j` rooms of window `w` written in.
pub open spec fn fill_prefix(entries: Seq<EntryView>, w: WindowView, j: int) -> Seq<EntryView> {
    Seq::new(
        entries.len(),
        |i: int|
            if w.start <= i < w.start + j {
                EntryView::Filled(w.room_ids[i - w.start])
            } else {
                entries[i]
            },
    )
}

pub open spec fn fill_window(entries: Seq<EntryView>, w: WindowView) -> Seq<EntryView> {
    fill_prefix(entries, w, w.room_ids.len() as int)
}

/// The slots with every window written in, in order.
pub open spec fn fill_windows(entries: Seq<EntryView>, ws: Seq<WindowView>) -> Seq<EntryView>
    decreases ws.len(),
{
    if ws.len() == 0 {
        entries
    } else {
        fill_window(fill_windows(entries, ws.drop_last()), ws.last())
    }
}

/// What the last window covering index `i` puts there, if any covers it.
pub open spec fn covering(ws: Seq<WindowView>, i: int) -> Option<EntryView>
    decreases ws.len(),
{
    if ws.len() == 0 {
        None
    } else {
        let w = ws.last();
        if w.start <= i < w.start + w.room_ids.len() {
            Some(EntryView::Filled(w.room_ids[i - w.start]))
        } else {
            covering(ws.drop_last(), i)
        }
    }
}

pub proof fn lemma_fill_windows_at(e: Seq<EntryView>, ws: Seq<WindowView>, i: int)
    requires
        0 <= i < e.len(),
    ensures
        fill_windows(e, ws).len() == e.len(),
        fill_windows(e, ws)[i] == match covering(ws, i) {
            Some(v) => v,
            None => e[i],
        },
    decreases ws.len(),
{
    if ws.len() > 0 {
        lemma_fill_windows_at(e, ws.drop_last(), i);
    }
}

/// Every window lies below `count`.
pub open spec fn windows_fit(ws: Seq<WindowView>, count: nat) -> bool {
    forall|k: int| 0 <= k < ws.len() ==> (#[trigger] ws[k]).start + ws[k].room_ids.len() <= count
}

pub open spec fn min_nat(a: nat, b: nat) -> nat {
    if a <= b { a } else { b }
}

pub open spec fn max_nat(a: nat, b: nat) -> nat {
    if a <= b { b } else { a }
}

/// How many rooms a growing list may reach once the server counts `count`.
pub open spec fn growing_limit(max: Option<u32>, count: u32) -> nat {
    match max {
        Some(m) => min_nat(m as nat, count as nat),
        None => count as nat,
    }
}

/// What a list is, as a value.
pub struct ListView {
    pub name: Seq<char>,
    pub mode: SlidingSyncMode,
    pub ranges: Seq<(u32, u32)>,
    pub sort: Seq<Seq<char>>,
    pub filters: Seq<Seq<char>>,
    pub timeline_limit: Option<u32>,
    pub state: SlidingSyncState,
    pub entries: Seq<EntryView>,
    /// The total that the server last counted.
    pub count: Option<u32>,
    /// For a growing list, how many rooms from index 0 the window has covered.
    pub fetched: nat,
}

impl ListView {
    pub open spec fn wf(self) -> bool {
        &&& self.entries.len() <= u32::MAX
        &&& self.fetched <= self.entries.len()
        &&& self.count is Some ==> self.count->0 <= self.entries.len()
    }

    /// The list once the caller has set new selective ranges.
    pub open spec fn with_ranges(self, ranges: Seq<(u32, u32)>) -> ListView {
        ListView { ranges, entries: invalidate_outside(self.entries, ranges), ..self }
    }

    /// Where the next window of a growing list ends (exclusive): one batch
    /// further than what is covered, held below every known limit, and never
    /// short of what is covered.
    pub open spec fn next_end(self) -> nat {
        match self.mode {
            SlidingSyncMode::Selective => 0,
            SlidingSyncMode::Growing { batch_size, maximum_number_of_rooms_to_fetch } => {
                let a = min_nat((self.fetched + batch_size) as nat, u32::MAX as nat);
                let b = match maximum_number_of_rooms_to_fetch {
                    Some(m) => min_nat(a, m as nat),
                    None => a,
                };
                let c = match self.count {
                    Some(n) => min_nat(b, n as nat),
                    None => b,
                };
                max_nat(self.fetched, c)
            },
        }
    }

    /// The ranges that the next request asks for.
    pub open spec fn request_ranges(self) -> Seq<(u32, u32)> {
        match self.mode {
            SlidingSyncMode::Selective => self.ranges,
            SlidingSyncMode::Growing { .. } => if self.next_end() == 0 {
                seq![]
            } else {
                seq![(0u32, (self.next_end() - 1) as u32)]
            },
        }
    }

    /// The list once a response is folded in: `requested_end` is where the
    /// window that was asked for ended, `count` the server's total, `ws` the
    /// positions it sent.
    pub open spec fn applied(self, requested_end: nat, count: u32, ws: Seq<WindowView>) -> ListView {
        let entries = fill_windows(extend_to(self.entries, count as nat), ws);
        match self.mode {
            SlidingSyncMode::Selective => ListView {
                entries,
                count: Some(count),
                state: SlidingSyncState::FullyLoaded,
                ..self
            },
            SlidingSyncMode::Growing { maximum_number_of_rooms_to_fetch, .. } => {
                let fetched = min_nat(requested_end, entries.len());
                ListView {
                    entries,
                    count: Some(count),
                    fetched,
                    state: if fetched >= growing_limit(maximum_number_of_rooms_to_fetch, count) {
                        SlidingSyncState::FullyLoaded
                    } else {
                        SlidingSyncState::PartiallyLoaded
                    },
                    ..self
                }
            },
        }
    }
}

/// A list as it is persisted between sessions: everything needed to show
/// its window again before the first round-trip.
#[derive(Debug)]
pub struct FrozenList {
    pub name: String,
    pub mode: SlidingSyncMode,
    pub ranges: Vec<(u32, u32)>,
    pub sort: Vec<String>,
    pub filters: Vec<String>,
    pub timeline_limit: Option<u32>,
    pub state: SlidingSyncState,
    pub entries: Vec<RoomListEntry>,
    pub maximum_number_of_rooms: Option<u32>,
    pub fetched: u32,
}

pub open spec fn frozen_view(f: FrozenList) -> ListView {
    ListView {
        name: f.name@,
        mode: f.mode,
        ranges: f.ranges@,
        sort: strings_view(f.sort@),
        filters: strings_view(f.filters@),
        timeline_limit: f.timeline_limit,
        state: f.state,
        entries: entries_view(f.entries@),
        count: f.maximum_number_of_rooms,
        fetched: f.fetched as nat,
    }
}

/// A list of rooms that the server orders, seen through a window.
#[derive(Debug)]
pub struct SlidingSyncList {
    name: String,
    mode: SlidingSyncMode,
    ranges: Vec<(u32, u32)>,
    sort: Vec<String>,
    filters: Vec<String>,
    timeline_limit: Option<u32>,
    state: SlidingSyncState,
    entries: Vec<RoomListEntry>,
    maximum_number_of_rooms: Option<u32>,
    fetched: u32,
}

impl View for SlidingSyncList {
    type V = ListView;

    closed spec fn view(&self) -> ListView {
        ListView {
            name: self.name@,
            mode: self.mode,
            ranges: self.ranges@,
            sort: strings_view(self.sort@),
            filters: strings_view(self.filters@),
            timeline_limit: self.timeline_limit,
            state: self.state,
            entries: entries_view(self.entries@),
            count: self.maximum_number_of_rooms,
            fetched: self.fetched as nat,
        }
    }
}

fn clone_entries(v: &Vec<RoomListEntry>) -> (r: Vec<RoomListEntry>)
    ensures
        entries_view(r@) == entries_view(v@),
{
    let r = v.clone();
    assert(entries_view(r@) =~= entries_view(v@));
    r
}

pub(crate) fn clone_strings(v: &Vec<String>) -> (r: Vec<String>)
    ensures
        r@ == v@,
{
    let r = v.clone();
    assert(r@ =~= v@);
    r
}

fn clone_ranges(v: &Vec<(u32, u32)>) -> (r: Vec<(u32, u32)>)
    ensures
        r@ == v@,
{
    let mut r: Vec<(u32, u32)> = Vec::new();
    let mut i: usize = 0;
    while i < v.len()
        invariant
            i <= v.len(),
            r@ == v@.take(i as int),
        decreases v.len() - i,
    {
        r.push(v[i]);
        i = i + 1;
        assert(r@ =~= v@.take(i as int));
    }
    assert(v@.take(i as int) =~= v@);
    r
}

/// Whether two slot sequences hold the same thing at every position.
fn entries_equal(a: &Vec<RoomListEntry>, b: &Vec<RoomListEntry>) -> (r: bool)
    ensures
        r == (entries_view(a@) == entries_view(b@)),
{
    if a.len() != b.len() {
        assert(entries_view(a@).len() != entries_view(b@).len());
        return false;
    }
    let mut i: usize = 0;
    while i < a.len()
        invariant
            a.len() == b.len(),
            i <= a.len(),
            forall|k: int| 0 <= k < i ==> a@[k]@ == b@[k]@,
        decreases a.len() - i,
    {
        if !a[i].same_as(&b[i]) {
            assert(entries_view(a@)[i as int] != entries_view(b@)[i as int]);
            return false;
        }
        i = i + 1;
    }
    assert(entries_view(a@) =~= entries_view(b@));
    true
}


/// Whether index `i` lies in one of the ranges.
fn ranges_contain(ranges: &Vec<(u32, u32)>, i: usize) -> (r: bool)
    ensures
        r == in_ranges(ranges@, i as int),
{
    let mut k: usize = 0;
    while k < ranges.len()
        invariant
            k <= ranges.len(),
            forall|m: int| 0 <= m < k ==> !((#[trigger] ranges@[m]).0 <= i <= ranges@[m].1),
        decreases ranges.len() - k,
    {
        if ranges[k].0 as usize <= i && i <= ranges[k].1 as usize {
            assert(ranges@[k as int].0 <= i <= ranges@[k as int].1);
            return true;
        }
        k = k + 1;
    }
    false
}

fn invalidate_entries(entries: &mut Vec<RoomListEntry>, ranges: &Vec<(u32, u32)>)
    ensures
        entries_view(final(entries)@) == invalidate_outside(entries_view(old(entries)@), ranges@),
{
    let ghost before = entries_view(entries@);
    let mut i: usize = 0;
    while i < entries.len()
        invariant
            entries.len() == before.len(),
            i <= entries.len(),
            forall|k: int| 0 <= k < i ==> #[trigger] entries@[k]@ == invalidate_outside(before, ranges@)[k],
            forall|k: int| i <= k < entries.len() ==> #[trigger] entries@[k]@ == before[k],
        decreases entries.len() - i,
    {
        if !ranges_contain(ranges, i) {
            let e = entries[i].to_invalidated();
            entries.set(i, e);
        }
        i = i + 1;
    }
    assert(entries_view(entries@) =~= invalidate_outside(before, ranges@));
}

fn extend_entries(entries: &mut Vec<RoomListEntry>, n: u32)
    ensures
        entries_view(final(entries)@) == extend_to(entries_view(old(entries)@), n as nat),
{
    let ghost before = entries_view(entries@);
    if entries.len() >= n as usize {
        return;
    }
    while entries.len() < n as usize
        invariant
            before.len() <= entries.len() <= n,
            forall|k: int| 0 <= k < before.len() ==> #[trigger] entries@[k]@ == before[k],
            forall|k: int| before.len() <= k < entries.len() ==> #[trigger] entries@[k]@ == EntryView::Empty,
        decreases n - entries.len(),
    {
        entries.push(RoomListEntry::Empty);
    }
    assert(entries_view(entries@) =~= extend_to(before, n as nat));
}

pub proof fn lemma_fill_windows_len(entries: Seq<EntryView>, ws: Seq<WindowView>)
    ensures
        fill_windows(entries, ws).len() == entries.len(),
    decreases ws.len(),
{
    if ws.len() > 0 {
        lemma_fill_windows_len(entries, ws.drop_last());
    }
}

fn fill_entries(entries: &mut Vec<RoomListEntry>, windows: &Vec<ListWindow>)
    requires
        forall|k: int| 0 <= k < windows.len() ==>
            #[trigger] windows@[k].start + windows@[k].room_ids.len() <= old(entries).len(),
    ensures
        entries_view(final(entries)@) == fill_windows(entries_view(old(entries)@), windows_view(windows@)),
{
    let ghost base = entries_view(entries@);
    let ghost wsv = windows_view(windows@);
    let mut k: usize = 0;
    assert(wsv.take(0) =~= seq![]);
    while k < windows.len()
        invariant
            k <= windows.len(),
            wsv == windows_view(windows@),
            entries.len() == base.len(),
            forall|m: int| 0 <= m < windows.len() ==>
                #[trigger] windows@[m].start + windows@[m].room_ids.len() <= base.len(),
            entries_view(entries@) == fill_windows(base, wsv.take(k as int)),
        decreases windows.len() - k,
    {
        let w = &windows[k];
        let ghost prev = entries_view(entries@);
        let ghost wv = w@;
        assert(wv == wsv[k as int]);
        let mut j: usize = 0;
        while j < w.room_ids.len()
            invariant
                j <= w.room_ids.len(),
                w.start + w.room_ids.len() <= entries.len(),
                entries.len() == prev.len(),
                wv == w@,
                entries_view(entries@) == fill_prefix(prev, wv, j as int),
            decreases w.room_ids.len() - j,
        {
            let idx: usize = w.start as usize + j;
            let id = w.room_ids[j].clone();
            assert(wv.room_ids[j as int] == id@);
            let ghost mid = entries_view(entries@);
            entries.set(idx, RoomListEntry::Filled(id));
            assert forall|i: int| 0 <= i < entries.len() implies #[trigger] entries_view(entries@)[i]
                == fill_prefix(prev, wv, j + 1)[i] by {
                if i != idx {
                    assert(entries_view(entries@)[i] == mid[i]);
                }
            }
            assert(entries_view(entries@) =~= fill_prefix(prev, wv, j + 1));
            j = j + 1;
        }
        assert(wsv.take(k + 1).drop_last() =~= wsv.take(k as int));
        k = k + 1;
    }
    assert(wsv.take(k as int) =~= wsv);
}

impl SlidingSyncList {
    pub open spec fn wf(&self) -> bool {
        self@.wf()
    }

    /// A new list, not loaded yet, with no ranges, sort keys or filters.
    pub fn new(name: String, mode: SlidingSyncMode) -> (r: Self)
        ensures
            r.wf(),
            r@ == (ListView {
                name: name@,
                mode,
                ranges: seq![],
                sort: seq![],
                filters: seq![],
                timeline_limit: None,
                state: SlidingSyncState::NotLoaded,
                entries: seq![],
                count: None,
                fetched: 0,
            }),
    {
        let r = SlidingSyncList {
            name,
            mode,
            ranges: Vec::new(),
            sort: Vec::new(),
            filters: Vec::new(),
            timeline_limit: None,
            state: SlidingSyncState::NotLoaded,
            entries: Vec::new(),
            maximum_number_of_rooms: None,
            fetched: 0,
        };
        assert(strings_view(r.sort@) =~= seq![]);
        assert(strings_view(r.filters@) =~= seq![]);
        assert(entries_view(r.entries@) =~= seq![]);
        r
    }
    /// Sets the ranges of a selective list. Every filled slot that lies in
    /// none of them becomes invalidated, keeping its room id; nothing else
    /// changes. A growing list refuses, unchanged.
    pub fn set_ranges(&mut self, ranges: Vec<(u32, u32)>) -> (r: Result<(), ConfigurationError>)
        requires
            old(self).wf(),
        ensures
            final(self).wf(),
            old(self)@.mode is Selective ==> r is Ok && final(self)@ == old(self)@.with_ranges(ranges@),
            old(self)@.mode is Growing ==> (r matches Err(ConfigurationError::RangesOnGrowingList))
                && final(self)@ == old(self)@,
    {
        match self.mode {
            SlidingSyncMode::Growing { .. } => {
                return Err(ConfigurationError::RangesOnGrowingList);
            },
            SlidingSyncMode::Selective => {},
        }
        invalidate_entries(&mut self.entries, &ranges);
        self.ranges = ranges;
        Ok(())
    }

    /// Sets a single closed range `start..=end`; see [`Self::set_ranges`].
    pub fn set_range(&mut self, start: u32, end: u32) -> (r: Result<(), ConfigurationError>)
        requires
            old(self).wf(),
        ensures
            final(self).wf(),
            old(self)@.mode is Selective ==> r is Ok && final(self)@ == old(self)@.with_ranges(
                seq![(start, end)],
            ),
            old(self)@.mode is Growing ==> (r matches Err(ConfigurationError::RangesOnGrowingList))
                && final(self)@ == old(self)@,
    {
        let ranges = vec![(start, end)];
        assert(ranges@ =~= seq![(start, end)]);
        self.set_ranges(ranges)
    }

    /// Adds one more closed range to a selective list's window; nothing is
    /// invalidated, since the window only grows. A growing list refuses,
    /// unchanged.
    pub fn add_range(&mut self, start: u32, end: u32) -> (r: Result<(), ConfigurationError>)
        requires
            old(self).wf(),
        ensures
            final(self).wf(),
            old(self)@.mode is Selective ==> r is Ok && final(self)@ == (ListView {
                ranges: old(self)@.ranges.push((start, end)),
                ..old(self)@
            }),
            old(self)@.mode is Growing ==> (r matches Err(ConfigurationError::RangesOnGrowingList))
                && final(self)@ == old(self)@,
    {
        match self.mode {
            SlidingSyncMode::Growing { .. } => {
                return Err(ConfigurationError::RangesOnGrowingList);
            },
            SlidingSyncMode::Selective => {},
        }
        self.ranges.push((start, end));
        Ok(())
    }

    /// Sets how many timeline events the next requests ask for per room.
    pub fn set_timeline_limit(&mut self, limit: Option<u32>)
        requires
            old(self).wf(),
        ensures
            final(self).wf(),
            final(self)@ == (ListView { timeline_limit: limit, ..old(self)@ }),
    {
        self.timeline_limit = limit;
    }

    /// Where the next window of a growing list ends (exclusive).
    pub fn next_end(&self) -> (r: u32)
        requires
            self.wf(),
        ensures
            r == self@.next_end(),
    {
        match self.mode {
            SlidingSyncMode::Selective => 0,
            SlidingSyncMode::Growing { batch_size, maximum_number_of_rooms_to_fetch } => {
                let sum: u64 = self.fetched as u64 + batch_size as u64;
                let mut end: u32 = if sum <= u32::MAX as u64 { sum as u32 } else { u32::MAX };
                match maximum_number_of_rooms_to_fetch {
                    Some(m) => if m < end { end = m; },
                    None => {},
                }
                match self.maximum_number_of_rooms {
                    Some(n) => if n < end { end = n; },
                    None => {},
                }
                if end < self.fetched { self.fetched } else { end }
            },
        }
    }

    /// The ranges that the next request asks for: the caller's for a
    /// selective list, `0..=next_end - 1` for a growing one.
    pub fn request_ranges(&self) -> (r: Vec<(u32, u32)>)
        requires
            self.wf(),
        ensures
            r@ == self@.request_ranges(),
    {
        match self.mode {
            SlidingSyncMode::Selective => {
                clone_ranges(&self.ranges)
            },
            SlidingSyncMode::Growing { .. } => {
                let end = self.next_end();
                if end == 0 {
                    let r: Vec<(u32, u32)> = Vec::new();
                    assert(r@ =~= seq![]);
                    r
                } else {
                    let r = vec![(0u32, end - 1)];
                    assert(r@ =~= seq![(0u32, (end - 1) as u32)]);
                    r
                }
            },
        }
    }

    /// Folds in the server's answer for this list: `requested_end` is where
    /// the window that was asked for ended, `count` the server's total and
    /// `windows` the positions it sent. Returns whether the list changed.
    pub fn apply_update(&mut self, requested_end: u32, count: u32, windows: &Vec<ListWindow>) -> (changed: bool)
        requires
            old(self).wf(),
            windows_fit(windows_view(windows@), count as nat),
        ensures
            final(self).wf(),
            final(self)@ == old(self)@.applied(requested_end as nat, count, windows_view(windows@)),
            changed == (final(self)@ != old(self)@),
            final(self)@.entries.len() >= old(self)@.entries.len(),
    {
        let ghost old_view = self@;
        let old_entries = clone_entries(&self.entries);
        let old_state = self.state;
        let old_count = self.maximum_number_of_rooms;
        let old_fetched = self.fetched;
        extend_entries(&mut self.entries, count);
        let ghost extended = entries_view(self.entries@);
        assert(extended.len() >= count);
        assert forall|k: int| 0 <= k < windows.len() implies
            #[trigger] windows@[k].start + windows@[k].room_ids.len() <= extended.len() by {
            assert(windows_view(windows@)[k] == windows@[k]@);
        }
        fill_entries(&mut self.entries, windows);
        proof {
            lemma_fill_windows_len(extended, windows_view(windows@));
        }
        let len = self.entries.len() as u32;
        self.maximum_number_of_rooms = Some(count);
        match self.mode {
            SlidingSyncMode::Selective => {
                self.state = SlidingSyncState::FullyLoaded;
            },
            SlidingSyncMode::Growing { maximum_number_of_rooms_to_fetch, .. } => {
                let fetched = if requested_end <= len { requested_end } else { len };
                let limit = match maximum_number_of_rooms_to_fetch {
                    Some(m) => if m <= count { m } else { count },
                    None => count,
                };
                self.fetched = fetched;
                self.state = if fetched >= limit {
                    SlidingSyncState::FullyLoaded
                } else {
                    SlidingSyncState::PartiallyLoaded
                };
            },
        }
        let same_count = match old_count {
            Some(c) => c == count,
            None => false,
        };
        let same = same_count && old_state == self.state && old_fetched == self.fetched
            && entries_equal(&old_entries, &self.entries);
        assert(self@ == old_view.applied(requested_end as nat, count, windows_view(windows@)));
        !same
    }

    /// The list as it is persisted.
    pub fn freeze(&self) -> (r: FrozenList)
        ensures
            frozen_view(r) == self@,
    {
        FrozenList {
            name: self.name.clone(),
            mode: self.mode,
            ranges: clone_ranges(&self.ranges),
            sort: clone_strings(&self.sort),
            filters: clone_strings(&self.filters),
            timeline_limit: self.timeline_limit,
            state: self.state,
            entries: clone_entries(&self.entries),
            maximum_number_of_rooms: self.maximum_number_of_rooms,
            fetched: self.fetched,
        }
    }

    /// The list restored from what was persisted, exactly; nothing if the
    /// record does not describe a well-formed list.
    pub fn from_frozen(f: FrozenList) -> (r: Option<Self>)
        ensures
            r is Some <==> frozen_view(f).wf(),
            r is Some ==> r->0@ == frozen_view(f) && r->0.wf(),
    {
        let len = f.entries.len();
        if len > u32::MAX as usize || f.fetched as usize > len {
            return None;
        }
        match f.maximum_number_of_rooms {
            Some(c) => if c as usize > len {
                return None;
            },
            None => {},
        }
        Some(SlidingSyncList {
            name: f.name,
            mode: f.mode,
            ranges: f.ranges,
            sort: f.sort,
            filters: f.filters,
            timeline_limit: f.timeline_limit,
            state: f.state,
            entries: f.entries,
            maximum_number_of_rooms: f.maximum_number_of_rooms,
            fetched: f.fetched,
        })
    }

    pub fn name(&self) -> (r: &String)
        ensures
            r@ == self@.name,
    {
        &self.name
    }

    pub fn mode(&self) -> (r: SlidingSyncMode)
        ensures
            r == self@.mode,
    {
        self.mode
    }

    pub fn state(&self) -> (r: SlidingSyncState)
        ensures
            r == self@.state,
    {
        self.state
    }

    pub fn ranges(&self) -> (r: &Vec<(u32, u32)>)
        ensures
            r@ == self@.ranges,
    {
        &self.ranges
    }

    pub fn sort(&self) -> (r: &Vec<String>)
        ensures
            strings_view(r@) == self@.sort,
    {
        &self.sort
    }

    pub fn filters(&self) -> (r: &Vec<String>)
        ensures
            strings_view(r@) == self@.filters,
    {
        &self.filters
    }

    pub fn timeline_limit(&self) -> (r: Option<u32>)
        ensures
            r == self@.timeline_limit,
    {
        self.timeline_limit
    }

    /// The slots of the window, in the server's order.
    pub fn room_list(&self) -> (r: &Vec<RoomListEntry>)
        ensures
            entries_view(r@) == self@.entries,
    {
        &self.entries
    }

    /// The total that the server last counted, if any.
    pub fn maximum_number_of_rooms(&self) -> (r: Option<u32>)
        ensures
            r == self@.count,
    {
        self.maximum_number_of_rooms
    }

    /// For a growing list, how many rooms from index 0 are covered.
    pub fn fetched(&self) -> (r: u32)
        ensures
            r == self@.fetched,
    {
        self.fetched
    }

    /// The list with these selective ranges, for building it.
    pub fn with_ranges(self, ranges: Vec<(u32, u32)>) -> (r: Self)
        requires
            self.wf(),
        ensures
            r.wf(),
            r@ == (ListView { ranges: ranges@, entries: invalidate_outside(self@.entries, ranges@), ..self@ }),
    {
        let mut r = self;
        invalidate_entries(&mut r.entries, &ranges);
        r.ranges = ranges;
        r
    }

    /// The list with these sort keys, for building it.
    pub fn with_sort(self, sort: Vec<String>) -> (r: Self)
        requires
            self.wf(),
        ensures
            r.wf(),
            r@ == (ListView { sort: strings_view(sort@), ..self@ }),
    {
        let mut r = self;
        r.sort = sort;
        r
    }

    /// The list with these filters, for building it.
    pub fn with_filters(self, filters: Vec<String>) -> (r: Self)
        requires
            self.wf(),
        ensures
            r.wf(),
            r@ == (ListView { filters: strings_view(filters@), ..self@ }),
    {
        let mut r = self;
        r.filters = filters;
        r
    }

    /// The list with this timeline limit, for building it.
    pub fn with_timeline_limit(self, limit: Option<u32>) -> (r: Self)
        requires
            self.wf(),
        ensures
            r.wf(),
            r@ == (ListView { timeline_limit: limit, ..self@ }),
    {
        let mut r = self;
        r.timeline_limit = limit;
        r
    }
}

} // verus!
