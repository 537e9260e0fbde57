//! Laws of shared source reads.

use crate::fetch::{
    departed, enters, entry_stage, followers_led, follows, heir, is_led, leaders_distinct,
    leads_for, lemma_heir, lemma_running_mono, lemma_running_update, polls, running, runs,
    FetchRequest, Slots, Stage, Turn,
};
use crate::payload::payload_view;
use vstd::prelude::*;

verus! {

/// Two requests that read from the source at the same time ask for different
/// bytes.
pub proof fn law_no_bytes_are_read_twice_at_a_time<Q>(slots: Slots<Q>, i: int, j: int)
    requires
        leaders_distinct(slots),
        0 <= i < slots.len(),
        0 <= j < slots.len(),
        i != j,
        runs(slots[i]),
        runs(slots[j]),
    ensures
        ({
            let left = slots[i].unwrap();
            let right = slots[j].unwrap();
            left.key != right.key || left.start != right.start || left.end != right.end
        }),
{
    assert(i < j || j < i);
    assert(slots[i] is Some && slots[j] is Some);
}

/// A request for bytes that another request reads or waits to read does not
/// read them itself.
pub proof fn law_identical_requests_share<Q>(
    before: Slots<Q>,
    after: Slots<Q>,
    leader: int,
    id: int,
)
    requires
        leaders_distinct(before),
        0 <= leader < before.len(),
        before[leader] is Some,
        before[leader].unwrap().leads(),
        enters(
            before,
            after,
            before[leader].unwrap().key,
            before[leader].unwrap().start,
            before[leader].unwrap().end,
            id,
        ),
    ensures
        follows(after[id], leader),
        after[leader] == before[leader],
{
    let request = before[leader].unwrap();
    assert(leads_for(before[leader], request.key, request.start, request.end));
    let i = choose|i: int|
        0 <= i < before.len() && leads_for(
            #[trigger] before[i],
            request.key,
            request.start,
            request.end,
        );
    assert(i < leader || leader < i || i == leader);
}

/// A request for bytes that no other request asks for in the same way is on its
/// own, even if the bytes overlap.
pub proof fn law_other_requests_are_independent<Q>(
    before: Slots<Q>,
    after: Slots<Q>,
    key: Q,
    start: int,
    end: int,
    id: int,
)
    requires
        enters(before, after, key, start, end, id),
        forall|i: int|
            0 <= i < before.len() && (#[trigger] before[i]) is Some ==> !before[i].unwrap().asks(
                key,
                start,
                end,
            ),
    ensures
        after[id] == Some(FetchRequest { key, start, end, stage: Stage::Queued }),
{
}

/// Entering leaves every other request as it was.
pub proof fn law_entering_disturbs_nobody<Q>(
    before: Slots<Q>,
    after: Slots<Q>,
    key: Q,
    start: int,
    end: int,
    id: int,
    other: int,
)
    requires
        enters(before, after, key, start, end, id),
        0 <= other < before.len(),
        before[other] is Some,
    ensures
        other != id,
        after[other] == before[other],
{
}

/// No more requests read from the source than the limit allows, whoever asks
/// for a turn.
pub proof fn law_limit_is_kept<Q>(
    before: Slots<Q>,
    after: Slots<Q>,
    limit: nat,
    id: int,
    turn: Turn,
)
    requires
        polls(before, after, limit, id, turn),
        running(before) <= limit,
    ensures
        running(after) <= limit,
        running(after) == running(before) + if turn is Fetch {
            1nat
        } else {
            0nat
        },
{
    if 0 <= id < before.len() && before[id] is Some {
        let request = before[id].unwrap();
        lemma_running_update(before, id, Some(request.at(Stage::Running)));
        lemma_running_update(before, id, None);
    }
}

/// A request that is queued gets its turn when there is room.
pub proof fn law_queued_requests_proceed<Q>(
    before: Slots<Q>,
    after: Slots<Q>,
    limit: nat,
    id: int,
    turn: Turn,
)
    requires
        polls(before, after, limit, id, turn),
        0 <= id < before.len(),
        before[id] is Some,
        before[id].unwrap().stage is Queued,
        running(before) < limit,
    ensures
        turn is Fetch,
        runs(after[id]),
{
}

/// All who share a source read get the bytes that it brought.
pub proof fn law_success_answers_all_who_share<Q>(
    slots: Slots<Q>,
    leader: int,
    follower: int,
    bytes: Seq<u8>,
)
    requires
        0 <= follower < slots.len(),
        follower != leader,
        follows(slots[follower], leader),
    ensures
        departed(slots, leader, Some(bytes))[follower] == Some(
            slots[follower].unwrap().at(Stage::Answered(bytes)),
        ),
{
}

/// When a source read fails or is given up, exactly one of those who shared it
/// takes it over, and the others share with that one.
pub proof fn law_failure_promotes_one<Q>(slots: Slots<Q>, leader: int, follower: int)
    requires
        followers_led(slots),
        0 <= follower < slots.len(),
        follows(slots[follower], leader),
    ensures
        ({
            let after = departed(slots, leader, None);
            let next = heir(slots, leader);
            &&& 0 <= next < slots.len()
            &&& follows(slots[next], leader)
            &&& after[next] == Some(slots[next].unwrap().at(Stage::Queued))
            &&& follower == next || follows(after[follower], next)
        }),
{
    lemma_heir(slots, leader);
    assert(is_led(slots, follower));
    assert(is_led(slots, heir(slots, leader)));
}

/// A request that shares a source read can leave without anyone noticing.
pub proof fn law_followers_leave_quietly<Q>(
    slots: Slots<Q>,
    id: int,
    bytes: Option<Seq<u8>>,
    other: int,
)
    requires
        followers_led(slots),
        0 <= id < slots.len(),
        slots[id] is Some,
        !slots[id].unwrap().leads(),
        0 <= other < slots.len(),
        other != id,
    ensures
        departed(slots, id, bytes)[other] == slots[other],
        departed(slots, id, bytes)[id] is None,
{
    assert(is_led(slots, other));
}

/// A request that leaves frees its place among the source reads if it had one,
/// and takes none if it had none.
pub proof fn law_departures_free_their_own_place<Q>(
    slots: Slots<Q>,
    id: int,
    bytes: Option<Seq<u8>>,
)
    requires
        0 <= id < slots.len(),
    ensures
        running(departed(slots, id, bytes)) == running(slots) - (if runs(slots[id]) {
            1int
        } else {
            0
        }),
{
    let after = departed(slots, id, bytes);
    let vacated = slots.update(id, None);
    lemma_running_update(slots, id, None);
    lemma_running_mono(after, vacated);
    lemma_running_mono(vacated, after);
}

/// Entering starts no source read.
pub proof fn law_entering_starts_no_source_read<Q>(
    before: Slots<Q>,
    after: Slots<Q>,
    key: Q,
    start: int,
    end: int,
    id: int,
)
    requires
        enters(before, after, key, start, end, id),
    ensures
        running(after) == running(before),
{
    let request = FetchRequest { key, start, end, stage: entry_stage(before, key, start, end) };
    if id == before.len() {
        assert(after.drop_last() =~= before);
    } else {
        lemma_running_update(before, id, Some(request));
    }
}

/// A request that has been answered got as many bytes as it asked for.
pub open spec fn answer_fits<Q>(slot: Option<FetchRequest<Q>>) -> bool {
    match slot {
        Some(request) => match request.stage {
            Stage::Answered(bytes) => bytes.len() == request.end - request.start,
            _ => true,
        },
        None => true,
    }
}

/// Every request that has been answered got as many bytes as it asked for.
pub open spec fn answers_fit<Q>(slots: Slots<Q>) -> bool {
    forall|i: int| 0 <= i < slots.len() ==> answer_fits(#[trigger] slots[i])
}

/// If every answered request got as many bytes as it asked for, that stays so
/// when a request enters.
pub proof fn law_entering_keeps_answers_fitting<Q>(
    before: Slots<Q>,
    after: Slots<Q>,
    key: Q,
    start: int,
    end: int,
    id: int,
)
    requires
        enters(before, after, key, start, end, id),
        answers_fit(before),
    ensures
        answers_fit(after),
{
    assert forall|i: int| 0 <= i < after.len() implies answer_fits(#[trigger] after[i]) by {
        assert(i == id || after[i] == before[i]);
    }
}

/// If every answered request got as many bytes as it asked for, that stays so
/// when a request asks for its turn, and the bytes that the request takes are as
/// many as it asked for.
pub proof fn law_turns_keep_answers_fitting<Q>(
    before: Slots<Q>,
    after: Slots<Q>,
    limit: nat,
    id: int,
    turn: Turn,
)
    requires
        polls(before, after, limit, id, turn),
        answers_fit(before),
    ensures
        answers_fit(after),
        turn matches Turn::Answered(bytes) ==> 0 <= id < before.len() && before[id] is Some
            && payload_view(bytes).len() == before[id].unwrap().end - before[id].unwrap().start,
{
    assert forall|i: int| 0 <= i < after.len() implies answer_fits(#[trigger] after[i]) by {
        assert(i == id || after[i] == before[i]);
    }
    if turn is Answered {
        assert(answer_fits(before[id]));
    }
}

/// If every answered request got as many bytes as it asked for, that stays so
/// when a request leaves that hands over no bytes or as many as it asked for.
pub proof fn law_departures_keep_answers_fitting<Q>(
    slots: Slots<Q>,
    id: int,
    bytes: Option<Seq<u8>>,
)
    requires
        followers_led(slots),
        answers_fit(slots),
        0 <= id < slots.len(),
        slots[id] is Some,
        bytes matches Some(handed) ==> handed.len() == slots[id].unwrap().end
            - slots[id].unwrap().start,
    ensures
        answers_fit(departed(slots, id, bytes)),
{
    let after = departed(slots, id, bytes);
    assert forall|i: int| 0 <= i < after.len() implies answer_fits(#[trigger] after[i]) by {
        assert(answer_fits(slots[i]));
        assert(is_led(slots, i));
    }
}

} // verus!
