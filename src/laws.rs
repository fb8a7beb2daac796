//! What holds of every list and every round-trip, proved over the models
//! that the operations' contracts are stated in.
use vstd::prelude::*;
use crate::engine::{
    after_response, changed_names, contains_name, find_name, frozen_lists_view, in_flight_names, is_first,
    lemma_first_unique, list_after, list_names, lists_after, names_unique, next_in_flight,
    response_fits, update_fits, update_names, EngineView,
};
use crate::room_list::{
    extend_to, fill_windows, in_ranges, lemma_fill_windows_at, windows_fit, EntryView, FrozenList,
    ListView,
};
use crate::sync::{windows_view, SyncResponse, WindowView};

verus! {

proof fn lemma_fill_windows_idempotent(e: Seq<EntryView>, ws: Seq<WindowView>)
    ensures
        fill_windows(fill_windows(e, ws), ws) == fill_windows(e, ws),
{
    let once = fill_windows(e, ws);
    crate::room_list::lemma_fill_windows_len(e, ws);
    crate::room_list::lemma_fill_windows_len(once, ws);
    assert forall|i: int| 0 <= i < once.len() implies fill_windows(once, ws)[i] == once[i] by {
        lemma_fill_windows_at(e, ws, i);
        lemma_fill_windows_at(once, ws, i);
    }
    assert(fill_windows(once, ws) =~= once);
}

/// A round-trip never shortens a list's slots: its length is the largest
/// total the server has counted.
pub proof fn lemma_entries_never_shrink(l: ListView, requested_end: nat, count: u32, ws: Seq<WindowView>)
    ensures
        l.applied(requested_end, count, ws).entries.len() >= l.entries.len(),
        l.applied(requested_end, count, ws).entries.len() >= count,
{
    crate::room_list::lemma_fill_windows_len(extend_to(l.entries, count as nat), ws);
}

/// Across a whole round-trip, no list's slots get shorter, and the lists
/// keep their names and places.
pub proof fn lemma_round_trip_entries_never_shrink(e: EngineView, fl: Seq<(Seq<char>, u32)>, resp: SyncResponse)
    ensures
        after_response(e, fl, resp).lists.len() == e.lists.len(),
        forall|i: int| 0 <= i < e.lists.len() ==> {
            &&& (#[trigger] after_response(e, fl, resp).lists[i]).entries.len() >= e.lists[i].entries.len()
            &&& after_response(e, fl, resp).lists[i].name == e.lists[i].name
        },
{
    assert forall|i: int| 0 <= i < e.lists.len() implies {
        &&& (#[trigger] after_response(e, fl, resp).lists[i]).entries.len() >= e.lists[i].entries.len()
        &&& after_response(e, fl, resp).lists[i].name == e.lists[i].name
    } by {
        let l = e.lists[i];
        match find_name(in_flight_names(fl), l.name) {
            Some(a) => match find_name(update_names(resp.lists@), l.name) {
                Some(b) => {
                    lemma_entries_never_shrink(
                        l,
                        fl[a].1 as nat,
                        resp.lists@[b].count,
                        windows_view(resp.lists@[b].windows@),
                    );
                },
                None => {},
            },
            None => {},
        }
    }
}

/// When the caller changes a selective list's ranges, a slot filled with a
/// room that lies in none of the new ranges keeps that room as an
/// invalidated slot, never an empty one; a slot inside them is untouched.
pub proof fn lemma_leaving_window_invalidates(l: ListView, ranges: Seq<(u32, u32)>, i: int)
    requires
        0 <= i < l.entries.len(),
    ensures
        l.with_ranges(ranges).entries.len() == l.entries.len(),
        l.entries[i] is Filled && !in_ranges(ranges, i) ==> l.with_ranges(ranges).entries[i]
            == EntryView::Invalidated(l.entries[i]->Filled_0),
        in_ranges(ranges, i) ==> l.with_ranges(ranges).entries[i] == l.entries[i],
        l.entries[i] is Empty ==> l.with_ranges(ranges).entries[i] is Empty,
{
}

/// When the server's answer for a list comes again unchanged, for the
/// window that the list asks for next and that it already covers, the list
/// does not change, so no update is reported for it.
pub proof fn lemma_repeated_answer_changes_nothing(
    l: ListView,
    requested_end: nat,
    count: u32,
    ws: Seq<WindowView>,
)
    requires
        l.wf(),
        windows_fit(ws, count as nat),
        ({
            let l1 = l.applied(requested_end, count, ws);
            l1.mode is Selective || l1.next_end() == l1.fetched
        }),
    ensures
        ({
            let l1 = l.applied(requested_end, count, ws);
            l1.applied(l1.next_end(), count, ws) == l1
        }),
{
    let l1 = l.applied(requested_end, count, ws);
    let ext = extend_to(l.entries, count as nat);
    lemma_entries_never_shrink(l, requested_end, count, ws);
    assert(extend_to(l1.entries, count as nat) == l1.entries);
    lemma_fill_windows_idempotent(ext, ws);
    crate::room_list::lemma_fill_windows_len(ext, ws);
    let l2 = l1.applied(l1.next_end(), count, ws);
    assert(l2.entries == l1.entries);
    assert(l2 == l1);
}

/// A list that did not change is not named in a round-trip's summary.
pub proof fn lemma_unchanged_list_not_reported(olds: Seq<ListView>, news: Seq<ListView>, i: int)
    requires
        olds.len() == news.len(),
        names_unique(list_names(olds)),
        0 <= i < olds.len(),
        olds[i] == news[i],
    ensures
        !contains_name(changed_names(olds, news, olds.len() as int), olds[i].name),
{
    lemma_changed_names_from(olds, news, olds.len() as int, i);
}

proof fn lemma_changed_names_from(olds: Seq<ListView>, news: Seq<ListView>, n: int, i: int)
    requires
        olds.len() == news.len(),
        names_unique(list_names(olds)),
        0 <= i < olds.len(),
        n <= olds.len(),
        olds[i] == news[i],
    ensures
        !contains_name(changed_names(olds, news, n), olds[i].name),
    decreases n,
{
    if n > 0 {
        lemma_changed_names_from(olds, news, n - 1, i);
        let prev = changed_names(olds, news, n - 1);
        if olds[n - 1] != news[n - 1] {
            assert(n - 1 != i);
            assert(list_names(olds)[n - 1] != list_names(olds)[i]);
            let cur = prev.push(olds[n - 1].name);
            if contains_name(cur, olds[i].name) {
                let k = choose|k: int| 0 <= k < cur.len() && cur[k] == olds[i].name;
                if k < prev.len() {
                    assert(prev[k] == olds[i].name);
                }
            }
        }
    }
}

/// A growing list never loses progress over a round-trip: the number of
/// rooms its window covers from index 0 does not go down, whatever the
/// server answers. A rejected cursor leaves the list as it was, so after a
/// recovery the list resumes from where it had got to.
pub proof fn lemma_growing_progress_kept(l: ListView, count: u32, ws: Seq<WindowView>)
    requires
        l.wf(),
        l.mode is Growing,
    ensures
        l.next_end() >= l.fetched,
        l.applied(l.next_end(), count, ws).fetched >= l.fetched,
{
    lemma_entries_never_shrink(l, l.next_end(), count, ws);
}

/// The round-trip after a recovery asks each list for the window that
/// `begin_step` records, so every growing list covers at least as many
/// rooms afterwards as before.
pub proof fn lemma_resume_keeps_progress(e: EngineView, resp: SyncResponse)
    requires
        e.wf(),
        response_fits(resp),
    ensures
        forall|i: int| 0 <= i < e.lists.len() && e.lists[i].mode is Growing ==>
            (#[trigger] after_response(e, next_in_flight(e.lists), resp).lists[i]).fetched >= e.lists[i].fetched,
{
    let fl = next_in_flight(e.lists);
    assert forall|i: int| 0 <= i < e.lists.len() && e.lists[i].mode is Growing implies
        (#[trigger] after_response(e, fl, resp).lists[i]).fetched >= e.lists[i].fetched by {
        let l = e.lists[i];
        let names = in_flight_names(fl);
        assert(names[i] == l.name);
        assert forall|k: int| 0 <= k < i implies #[trigger] names[k] != l.name by {
            assert(list_names(e.lists)[k] != list_names(e.lists)[i]);
        }
        assert(is_first(names, l.name, i));
        lemma_first_unique(names, l.name, i);
        assert(fl[i].1 as nat == l.next_end()) by {
            lemma_next_end_fits(l);
        }
        match find_name(update_names(resp.lists@), l.name) {
            Some(b) => {
                lemma_growing_progress_kept(l, resp.lists@[b].count, windows_view(resp.lists@[b].windows@));
            },
            None => {},
        }
    }
}

/// What a well-formed session freezes to always restores: every record is
/// a well-formed list and no two share a name, so `from_frozen` gives back
/// the same cursor and lists.
pub proof fn lemma_frozen_session_restores(e: EngineView, frozen: Seq<FrozenList>)
    requires
        e.wf(),
        frozen_lists_view(frozen) == e.lists,
    ensures
        forall|i: int| 0 <= i < frozen.len() ==> (#[trigger] frozen_lists_view(frozen)[i]).wf(),
        names_unique(list_names(frozen_lists_view(frozen))),
{
}

proof fn lemma_next_end_fits(l: ListView)
    requires
        l.wf(),
    ensures
        l.next_end() <= u32::MAX,
{
}

} // verus!
