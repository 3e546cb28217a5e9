//! The reconciliation engine: one tick diffs the messages observed in the
//! database against the previous tick, decides which staged attachments to
//! promote to permanent storage or to discard, allocates fresh numbers for
//! newly staged attachments, and records which messages were retracted.
//!
//! The engine itself performs no I/O: a caller feeds it the decoded
//! messages it observed (with the resolved source path of each attachment)
//! and carries out the returned actions on disk.

use vstd::prelude::*;

use crate::message::{spec_is_fully_unsent, Message};

verus! {

/// A message being tracked, with the numbers allocated for its staged
/// attachments and the source each was copied from.
#[derive(Debug, Clone, PartialEq, Eq)]
pub struct StagedMessage {
    pub message: Message,
    /// Each staged attachment: its allocated number (the file sits at
    /// `tmp/<number>` until promoted) and the source path it was copied
    /// from when the message was first observed.
    pub staged_attachments: Vec<(u64, String)>,
}

/// One message as observed in the current tick: the freshly decoded row
/// and the resolved on-disk source of each of its attachments (`None` when
/// a source could not be located).
#[derive(Debug, Clone, PartialEq, Eq)]
pub struct Observation {
    pub message: Message,
    pub attachment_sources: Vec<Option<String>>,
}

/// One retraction detected this tick: the tracked entry at its last
/// observation before the retraction. Its staged attachments are to be
/// moved from `tmp` to permanent storage and one log record appended.
#[derive(Debug, Clone, PartialEq, Eq)]
pub struct Retraction {
    pub rowid: i32,
    pub entry: StagedMessage,
}

/// The actions one tick asks its caller to carry out.
#[derive(Debug, Clone, PartialEq, Eq)]
pub struct TickOutcome {
    /// Messages retracted this tick, in observation order.
    pub retractions: Vec<Retraction>,
    /// Attachments to copy into `tmp`, each as its allocated number and
    /// source path, in allocation order.
    pub staged: Vec<(u64, String)>,
    /// Numbers whose `tmp` files are to be deleted because their message
    /// vanished.
    pub discarded: Vec<u64>,
}

/// The engine state between ticks.
pub struct ReconcilerState {
    /// The tracked messages of the previous tick, keyed by rowid.
    pub prev: Vec<(i32, StagedMessage)>,
    /// The next attachment number to hand out; never a number in use.
    pub cursor: u64,
    /// Every number that currently names a file, in `tmp` or in permanent
    /// storage.
    pub occupied: Vec<u64>,
    /// Every rowid whose retraction has been recorded. A fully unsent row
    /// lingers in the database after its promotion; remembering it here
    /// keeps the engine from logging it again on later ticks.
    pub logged: Vec<i32>,
    /// The rowids for which a retraction record has been emitted, oldest
    /// first.
    pub history: Ghost<Seq<i32>>,
}

/// The mathematical content of a tracked entry.
pub open spec fn entry_view(e: (i32, StagedMessage)) -> (i32, Message, Seq<(u64, String)>) {
    (e.0, e.1.message, e.1.staged_attachments@)
}

/// The mathematical content of the tracked map.
pub open spec fn prev_view(p: Seq<(i32, StagedMessage)>) -> Seq<(i32, Message, Seq<(u64, String)>)> {
    Seq::new(p.len(), |i: int| entry_view(p[i]))
}

/// The mathematical content of a retraction list.
pub open spec fn retractions_view(v: Seq<Retraction>) -> Seq<(i32, Message, Seq<(u64, String)>)> {
    Seq::new(v.len(), |i: int| (v[i].rowid, v[i].entry.message, v[i].entry.staged_attachments@))
}

/// The first index at or after `j` with rowid `k`, or the length.
pub open spec fn spec_entry_idx(s: Seq<(i32, Message, Seq<(u64, String)>)>, k: i32, j: int) -> int
    decreases s.len() - j,
{
    if j < 0 || j >= s.len() {
        s.len() as int
    } else if s[j].0 == k {
        j
    } else {
        spec_entry_idx(s, k, j + 1)
    }
}

/// Where the scan for a rowid lands: at a matching entry or one past the
/// end.
pub proof fn lemma_entry_idx_bounds(s: Seq<(i32, Message, Seq<(u64, String)>)>, k: i32, j: int)
    requires
        0 <= j <= s.len(),
    ensures
        j <= spec_entry_idx(s, k, j) <= s.len(),
        spec_entry_idx(s, k, j) < s.len() ==> s[spec_entry_idx(s, k, j)].0 == k,
        forall|x: int| j <= x < spec_entry_idx(s, k, j) ==> (#[trigger] s[x]).0 != k,
    decreases s.len() - j,
{
    if j < s.len() && s[j].0 != k {
        lemma_entry_idx_bounds(s, k, j + 1);
    }
}

/// The largest number in the sequence, or zero when it is empty.
pub open spec fn spec_max_occ(occ: Seq<u64>, i: int) -> int
    decreases i,
{
    if i <= 0 {
        0
    } else if occ[i - 1] >= spec_max_occ(occ, i - 1) {
        occ[i - 1] as int
    } else {
        spec_max_occ(occ, i - 1)
    }
}

/// The smallest number at or above `start` that names no existing file.
pub open spec fn spec_find_min(start: int, occ: Seq<u64>) -> int
    decreases spec_max_occ(occ, occ.len() as int) + 2 - start,
{
    if start > spec_max_occ(occ, occ.len() as int) {
        start
    } else if !occ.contains(start as u64) {
        start
    } else {
        spec_find_min(start + 1, occ)
    }
}

proof fn lemma_max_occ_bounds(occ: Seq<u64>, i: int)
    requires
        0 <= i <= occ.len(),
    ensures
        spec_max_occ(occ, i) >= 0,
        forall|j: int| 0 <= j < i ==> (#[trigger] occ[j]) <= spec_max_occ(occ, i),
        spec_max_occ(occ, i) == 0 || exists|j: int|
            0 <= j < i && occ[j] == spec_max_occ(occ, i),
    decreases i,
{
    if i > 0 {
        lemma_max_occ_bounds(occ, i - 1);
        if occ[i - 1] >= spec_max_occ(occ, i - 1) {
            assert(occ[i - 1] == spec_max_occ(occ, i));
        }
    }
}

/// What the smallest free number satisfies: it is free, at or above the
/// start, and everything between is taken.
pub proof fn lemma_find_min_properties(start: int, occ: Seq<u64>)
    requires
        0 <= start <= 0xffff_ffff_ffff_fff0,
        forall|i: int| 0 <= i < occ.len() ==> (#[trigger] occ[i]) < 0xffff_ffff_ffff_fff0u64,
    ensures
        spec_find_min(start, occ) >= start,
        !occ.contains(spec_find_min(start, occ) as u64),
        forall|m: int| start <= m < spec_find_min(start, occ) ==> occ.contains(#[trigger] (m as u64)),
        spec_find_min(start, occ) <= spec_max_occ(occ, occ.len() as int) + 1 || spec_find_min(
            start,
            occ,
        ) == start,
    decreases spec_max_occ(occ, occ.len() as int) + 2 - start,
{
    lemma_max_occ_bounds(occ, occ.len() as int);
    if start > spec_max_occ(occ, occ.len() as int) {
        if occ.contains(start as u64) {
            let w = choose|j: int| 0 <= j < occ.len() && occ[j] == start as u64;
            assert(occ[w] <= spec_max_occ(occ, occ.len() as int));
        }
    } else if !occ.contains(start as u64) {
    } else {
        lemma_find_min_properties(start + 1, occ);
    }
}

/// Find the smallest attachment number at or above `start` that no current
/// file uses.
pub fn find_min_attachment_number(start: u64, occupied: &Vec<u64>) -> (r: u64)
    requires
        start < 0xffff_ffff_ffff_fff0u64,
        forall|i: int|
            0 <= i < occupied@.len() ==> (#[trigger] occupied@[i]) < 0xffff_ffff_ffff_fff0u64,
    ensures
        r == spec_find_min(start as int, occupied@),
{
    let ghost occ = occupied@;
    let mut n: u64 = start;
    proof {
        lemma_max_occ_bounds(occ, occ.len() as int);
        lemma_find_min_properties(start as int, occ);
    }
    loop
        invariant
            start <= n,
            n as int <= spec_max_occ(occ, occ.len() as int) + 1 || n == start,
            spec_max_occ(occ, occ.len() as int) < 0xffff_ffff_ffff_fff0u64,
            occ == occupied@,
            start < 0xffff_ffff_ffff_fff0u64,
            spec_find_min(n as int, occ) == spec_find_min(start as int, occ),
        decreases spec_max_occ(occ, occ.len() as int) + 2 - n,
    {
        let mut taken = false;
        let mut i: usize = 0;
        while i < occupied.len()
            invariant
                i <= occ.len(),
                occ == occupied@,
                taken == exists|j: int| 0 <= j < i && occ[j] == n,
            decreases occ.len() - i,
        {
            if occupied[i] == n {
                taken = true;
            }
            i += 1;
        }
        if !taken {
            proof {
                assert(!occ.contains(n as u64));
            }
            return n;
        }
        proof {
            assert(occ.contains(n as u64));
            let w = choose|j: int| 0 <= j < occ.len() && occ[j] == n;
            lemma_max_occ_bounds(occ, occ.len() as int);
            assert(occ[w] <= spec_max_occ(occ, occ.len() as int));
        }
        n = n + 1;
    }
}

/// The evolving model of one tick: what remains of the previous map, what
/// has been decided so far, and the numbering state.
#[verifier::ext_equal]
pub struct TickModel {
    /// Entries of the previous tick not yet matched by an observation.
    pub working: Seq<(i32, Message, Seq<(u64, String)>)>,
    /// The rowids already processed this tick; later rows with the same
    /// rowid are duplicates of a join and are skipped.
    pub seen: Seq<i32>,
    /// The rowids whose retraction has already been recorded, this tick or
    /// on an earlier one. An untracked fully unsent row that is remembered
    /// here was promoted before, so it is not retracted again while it
    /// lingers in the database.
    pub logged: Seq<i32>,
    /// The map being built for the next tick.
    pub next: Seq<(i32, Message, Seq<(u64, String)>)>,
    pub cursor: u64,
    pub occupied: Seq<u64>,
    pub retractions: Seq<(i32, Message, Seq<(u64, String)>)>,
    pub staged: Seq<(u64, String)>,
    pub discarded: Seq<u64>,
}

/// Allocates numbers for the first `j` resolved sources: each `Some`
/// source takes the cursor as its number, marks it occupied, and advances
/// the cursor to the next free number; a missing source takes nothing.
pub open spec fn spec_stage_sources(
    cursor: u64,
    occupied: Seq<u64>,
    sources: Seq<Option<String>>,
    j: int,
) -> (u64, Seq<u64>, Seq<(u64, String)>)
    decreases j,
{
    if j <= 0 {
        (cursor, occupied, Seq::empty())
    } else {
        let prior = spec_stage_sources(cursor, occupied, sources, j - 1);
        match sources[j - 1] {
            Option::Some(src) => {
                let taken = prior.1.push(prior.0);
                (
                    spec_find_min(prior.0 as int + 1, taken) as u64,
                    taken,
                    prior.2.push((prior.0, src)),
                )
            },
            Option::None => prior,
        }
    }
}

/// One observation against the model: a duplicate rowid is skipped; a
/// tracked message is retracted on a fresh fully-unsent transition and
/// carried forward otherwise; an untracked fully unsent message is
/// retracted at once on its first observation and remembered, so the same
/// lingering row never yields a second record; any other untracked
/// message enters the map, staging its attachments when it advertises
/// any.
pub open spec fn spec_tick_step(m: TickModel, o: Observation) -> TickModel {
    let rid = o.message.rowid;
    if m.seen.contains(rid) {
        m
    } else {
        let m1 = TickModel { seen: m.seen.push(rid), ..m };
        let f = spec_entry_idx(m1.working, rid, 0);
        if f < m1.working.len() {
            let entry = m1.working[f];
            let m2 = TickModel { working: m1.working.remove(f), ..m1 };
            if spec_is_fully_unsent(o.message) && !spec_is_fully_unsent(entry.1) {
                TickModel {
                    retractions: m2.retractions.push(entry),
                    logged: m2.logged.push(rid),
                    ..m2
                }
            } else {
                TickModel { next: m2.next.push((rid, o.message, entry.2)), ..m2 }
            }
        } else {
            if spec_is_fully_unsent(o.message) {
                if m1.logged.contains(rid) {
                    m1
                } else {
                    TickModel {
                        retractions: m1.retractions.push((rid, o.message, Seq::empty())),
                        logged: m1.logged.push(rid),
                        ..m1
                    }
                }
            } else if o.message.num_attachments != 0 {
                let staged = spec_stage_sources(
                    m1.cursor,
                    m1.occupied,
                    o.attachment_sources@,
                    o.attachment_sources@.len() as int,
                );
                TickModel {
                    next: m1.next.push((rid, o.message, staged.2)),
                    cursor: staged.0,
                    occupied: staged.1,
                    staged: m1.staged + staged.2,
                    ..m1
                }
            } else {
                TickModel { next: m1.next.push((rid, o.message, Seq::empty())), ..m1 }
            }
        }
    }
}

/// The model after the observations from index `i` on.
pub open spec fn spec_tick_loop(m: TickModel, obs: Seq<Observation>, i: int) -> TickModel
    decreases obs.len() - i,
{
    if i < 0 || i >= obs.len() {
        m
    } else {
        spec_tick_loop(spec_tick_step(m, obs[i]), obs, i + 1)
    }
}

/// The sequence with the first occurrence of `n` removed.
pub open spec fn spec_remove_first(occ: Seq<u64>, n: u64) -> Seq<u64>
    decreases occ.len(),
{
    if occ.len() == 0 {
        occ
    } else if occ[0] == n {
        occ.drop_first()
    } else {
        seq![occ[0]] + spec_remove_first(occ.drop_first(), n)
    }
}

/// The numbers of a staged attachment list.
pub open spec fn spec_names_of(pairs: Seq<(u64, String)>) -> Seq<u64> {
    Seq::new(pairs.len(), |i: int| pairs[i].0)
}

/// The occupied set without the first `j` names of the pairs.
pub open spec fn spec_remove_names(occ: Seq<u64>, pairs: Seq<(u64, String)>, j: int) -> Seq<u64>
    decreases j,
{
    if j <= 0 {
        occ
    } else {
        spec_remove_first(spec_remove_names(occ, pairs, j - 1), pairs[j - 1].0)
    }
}

/// Discards the staged attachments of the first `k` unmatched entries:
/// their numbers leave the occupied set and are reported for deletion.
pub open spec fn spec_discard_leftovers(m: TickModel, k: int) -> TickModel
    decreases k,
{
    if k <= 0 {
        m
    } else {
        let prior = spec_discard_leftovers(m, k - 1);
        let entry = m.working[k - 1];
        TickModel {
            discarded: prior.discarded + spec_names_of(entry.2),
            occupied: spec_remove_names(prior.occupied, entry.2, entry.2.len() as int),
            ..prior
        }
    }
}

/// Discarding leftovers changes only the discarded list and the occupied
/// set.
pub proof fn lemma_discard_preserves(m: TickModel, k: int)
    ensures
        spec_discard_leftovers(m, k).working == m.working,
        spec_discard_leftovers(m, k).seen == m.seen,
        spec_discard_leftovers(m, k).logged == m.logged,
        spec_discard_leftovers(m, k).next == m.next,
        spec_discard_leftovers(m, k).cursor == m.cursor,
        spec_discard_leftovers(m, k).retractions == m.retractions,
        spec_discard_leftovers(m, k).staged == m.staged,
    decreases k,
{
    if k > 0 {
        lemma_discard_preserves(m, k - 1);
    }
}

/// The complete model of one tick over the given observations.
pub open spec fn spec_tick_model(
    prev: Seq<(i32, Message, Seq<(u64, String)>)>,
    cursor: u64,
    occupied: Seq<u64>,
    logged: Seq<i32>,
    obs: Seq<Observation>,
) -> TickModel {
    let init = TickModel {
        working: prev,
        seen: Seq::empty(),
        logged,
        next: Seq::empty(),
        cursor,
        occupied,
        retractions: Seq::empty(),
        staged: Seq::empty(),
        discarded: Seq::empty(),
    };
    let after = spec_tick_loop(init, obs, 0);
    spec_discard_leftovers(after, after.working.len() as int)
}

/// Whether a rowid vector holds `x`.
fn contains_i32(v: &Vec<i32>, x: i32) -> (r: bool)
    ensures
        r == v@.contains(x),
{
    let mut i: usize = 0;
    while i < v.len()
        invariant
            i <= v@.len(),
            forall|k: int| 0 <= k < i ==> v@[k] != x,
        decreases v@.len() - i,
    {
        if v[i] == x {
            return true;
        }
        i += 1;
    }
    false
}

/// Where the first occurrence of `n` sits, removal is one sequence remove.
proof fn lemma_remove_first_at(occ: Seq<u64>, n: u64, pos: int)
    requires
        0 <= pos <= occ.len(),
        forall|k: int| 0 <= k < pos ==> occ[k] != n,
        pos < occ.len() ==> occ[pos] == n,
    ensures
        pos < occ.len() ==> spec_remove_first(occ, n) == occ.remove(pos),
        pos == occ.len() ==> spec_remove_first(occ, n) == occ,
    decreases occ.len(),
{
    if occ.len() == 0 {
    } else if pos == 0 {
    } else {
        lemma_remove_first_at(occ.drop_first(), n, pos - 1);
        if pos < occ.len() {
            assert(seq![occ[0]] + occ.drop_first().remove(pos - 1) =~= occ.remove(pos));
        } else {
            assert(seq![occ[0]] + occ.drop_first() =~= occ);
        }
    }
}

/// Removes the first occurrence of `n`, if any.
fn remove_first_u64(v: &mut Vec<u64>, n: u64)
    ensures
        final(v)@ == spec_remove_first(old(v)@, n),
{
    let ghost s = old(v)@;
    let mut pos: usize = 0;
    while pos < v.len() && v[pos] != n
        invariant
            pos <= v@.len(),
            s == v@,
            forall|k: int| 0 <= k < pos ==> s[k] != n,
        decreases v@.len() - pos,
    {
        pos += 1;
    }
    proof {
        lemma_remove_first_at(s, n, pos as int);
    }
    if pos < v.len() {
        v.remove(pos);
    }
}

proof fn lemma_prev_view_remove(s: Seq<(i32, StagedMessage)>, f: int)
    requires
        0 <= f < s.len(),
    ensures
        prev_view(s.remove(f)) =~= prev_view(s).remove(f),
{
}

/// The model a set of loop variables stands for while observations are
/// being processed.
pub open spec fn loop_model(
    working: Seq<(i32, StagedMessage)>,
    seen: Seq<i32>,
    logged: Seq<i32>,
    next: Seq<(i32, StagedMessage)>,
    cursor: u64,
    occupied: Seq<u64>,
    retractions: Seq<Retraction>,
    staged: Seq<(u64, String)>,
) -> TickModel {
    TickModel {
        working: prev_view(working),
        seen,
        logged,
        next: prev_view(next),
        cursor,
        occupied,
        retractions: retractions_view(retractions),
        staged,
        discarded: Seq::empty(),
    }
}

impl ReconcilerState {
    /// The engine state at startup: nothing is tracked yet and numbering
    /// begins at the smallest number that no existing file uses.
    pub fn new(occupied: Vec<u64>) -> (r: ReconcilerState)
        requires
            forall|i: int|
                0 <= i < occupied@.len() ==> (#[trigger] occupied@[i]) < 0xffff_ffff_ffff_fff0u64,
        ensures
            r.prev@.len() == 0,
            r.cursor == spec_find_min(0, occupied@),
            r.occupied@ == occupied@,
            r.logged@.len() == 0,
            r.history@ == Seq::<i32>::empty(),
    {
        let cursor = find_min_attachment_number(0, &occupied);
        ReconcilerState {
            prev: Vec::new(),
            cursor,
            occupied,
            logged: Vec::new(),
            history: Ghost(Seq::empty()),
        }
    }
}

/// Runs one reconciliation pass: diffs the observed messages against the
/// previous tick, detects retractions, stages the attachments of newly
/// observed messages under fresh numbers, and discards the staged files of
/// messages that vanished. The returned outcome lists exactly the file
/// operations and log records the caller must perform, and the new state
/// already reflects them.
pub fn tick(state: ReconcilerState, observations: Vec<Observation>) -> (r: (
    ReconcilerState,
    TickOutcome,
))
    requires
        state.cursor < 0x8000_0000_0000_0000u64,
        forall|i: int|
            0 <= i < state.occupied@.len() ==> (#[trigger] state.occupied@[i])
                < 0x8000_0000_0000_0000u64,
        observations@.len() < 0x8000_0000,
        forall|i: int|
            0 <= i < observations@.len() ==> (#[trigger] observations@[i]).attachment_sources@.len()
                < 0x8000_0000,
    ensures
        ({
            let m = spec_tick_model(
                prev_view(state.prev@),
                state.cursor,
                state.occupied@,
                state.logged@,
                observations@,
            );
            &&& prev_view(r.0.prev@) == m.next
            &&& r.0.cursor == m.cursor
            &&& r.0.occupied@ == m.occupied
            &&& r.0.logged@ == m.logged
            &&& retractions_view(r.1.retractions@) == m.retractions
            &&& r.1.staged@ == m.staged
            &&& r.1.discarded@ == m.discarded
            &&& r.0.history@ == state.history@ + Seq::new(
                m.retractions.len(),
                |i: int| m.retractions[i].0,
            )
        }),
{
    let ghost obs0 = observations@;
    let ghost init = loop_model(
        state.prev@,
        Seq::empty(),
        state.logged@,
        Seq::empty(),
        state.cursor,
        state.occupied@,
        Seq::empty(),
        Seq::empty(),
    );
    let ghost after_loop = spec_tick_loop(init, obs0, 0);
    let ghost target = spec_tick_model(
        prev_view(state.prev@),
        state.cursor,
        state.occupied@,
        state.logged@,
        obs0,
    );
    proof {
        let init2 = TickModel {
            working: prev_view(state.prev@),
            seen: Seq::empty(),
            logged: state.logged@,
            next: Seq::empty(),
            cursor: state.cursor,
            occupied: state.occupied@,
            retractions: Seq::empty(),
            staged: Seq::empty(),
            discarded: Seq::empty(),
        };
        assert(prev_view(Seq::empty()) =~= Seq::<(i32, Message, Seq<(u64, String)>)>::empty());
        assert(retractions_view(Seq::empty()) =~= Seq::<
            (i32, Message, Seq<(u64, String)>),
        >::empty());
        assert(init =~~= init2);
        assert(target == spec_discard_leftovers(
            spec_tick_loop(init2, obs0, 0),
            spec_tick_loop(init2, obs0, 0).working.len() as int,
        ));
    }

    let ReconcilerState {
        prev: mut working,
        cursor: mut cursor,
        occupied: mut occupied,
        logged: mut logged,
        history,
    } = state;

    // Reverse the observations so they can be consumed front to back.
    let mut forward = observations;
    let mut reversed: Vec<Observation> = Vec::new();
    while forward.len() > 0
        invariant
            forward@.len() + reversed@.len() == obs0.len(),
            forward@ == obs0.take(forward@.len() as int),
            forall|k: int|
                0 <= k < reversed@.len() ==> reversed@[k] == obs0[obs0.len() - 1 - k],
        decreases forward.len(),
    {
        let o = forward.pop().unwrap();
        proof {
            assert(obs0.take(forward@.len() as int + 1).last() == obs0[forward@.len() as int]);
            assert(obs0.take(forward@.len() as int + 1).drop_last() =~= obs0.take(
                forward@.len() as int,
            ));
        }
        reversed.push(o);
    }

    let mut seen: Vec<i32> = Vec::new();
    let mut next: Vec<(i32, StagedMessage)> = Vec::new();
    let mut retractions: Vec<Retraction> = Vec::new();
    let mut staged: Vec<(u64, String)> = Vec::new();
    let mut i: usize = 0;
    proof {
        assert(loop_model(working@, seen@, logged@, next@, cursor, occupied@, retractions@, staged@)
            =~~= init);
    }
    while reversed.len() > 0
        invariant
            i as int + reversed@.len() == obs0.len(),
            obs0.len() < 0x8000_0000,
            forall|k: int|
                0 <= k < obs0.len() ==> (#[trigger] obs0[k]).attachment_sources@.len()
                    < 0x8000_0000,
            forall|k: int|
                0 <= k < reversed@.len() ==> reversed@[k] == obs0[obs0.len() - 1 - k],
            spec_tick_loop(
                loop_model(working@, seen@, logged@, next@, cursor, occupied@, retractions@, staged@),
                obs0,
                i as int,
            ) == after_loop,
            staged@.len() <= i as int * 0x8000_0000,
            cursor as int <= 0x8000_0000_0000_0000 + staged@.len(),
            forall|k: int|
                0 <= k < occupied@.len() ==> (#[trigger] occupied@[k]) as int
                    <= 0x8000_0000_0000_0000 + staged@.len(),
        decreases reversed.len(),
    {
        let ghost m0 = loop_model(working@, seen@, logged@, next@, cursor, occupied@, retractions@, staged@);
        let o = reversed.pop().unwrap();
        proof {
            assert(o == obs0[i as int]);
        }
        let rid = o.message.rowid;
        if contains_i32(&seen, rid) {
            proof {
                assert(spec_tick_step(m0, obs0[i as int]) == m0);
            }
        } else {
            seen.push(rid);
            let ghost m1 = TickModel { seen: m0.seen.push(rid), ..m0 };
            let mut f: usize = 0;
            while f < working.len() && working[f].0 != rid
                invariant
                    f <= working@.len(),
                    m1.working == prev_view(working@),
                    spec_entry_idx(m1.working, rid, 0) == spec_entry_idx(
                        m1.working,
                        rid,
                        f as int,
                    ),
                decreases working@.len() - f,
            {
                f += 1;
            }
            if f < working.len() {
                proof {
                    assert(spec_entry_idx(m1.working, rid, 0) == f as int);
                }
                let ghost mentry = m1.working[f as int];
                let ghost w_before = working@;
                let removed = working.remove(f);
                let entry = removed.1;
                proof {
                    lemma_prev_view_remove(w_before, f as int);
                }
                let new_unsent = o.message.is_fully_unsent();
                let old_unsent = entry.message.is_fully_unsent();
                if new_unsent && !old_unsent {
                    retractions.push(Retraction { rowid: rid, entry });
                    logged.push(rid);
                } else {
                    next.push(
                        (
                            rid,
                            StagedMessage {
                                message: o.message,
                                staged_attachments: entry.staged_attachments,
                            },
                        ),
                    );
                }
                proof {
                    assert(loop_model(
                        working@,
                        seen@,
                        logged@,
                        next@,
                        cursor,
                        occupied@,
                        retractions@,
                        staged@,
                    ) =~~= spec_tick_step(m0, obs0[i as int]));
                }
            } else {
                proof {
                    assert(spec_entry_idx(m1.working, rid, 0) == m1.working.len() as int);
                }
                if o.message.is_fully_unsent() {
                    if !contains_i32(&logged, rid) {
                        retractions.push(
                            Retraction {
                                rowid: rid,
                                entry: StagedMessage {
                                    message: o.message,
                                    staged_attachments: Vec::new(),
                                },
                            },
                        );
                        logged.push(rid);
                    }
                } else if o.message.num_attachments != 0 {
                    let Observation { message, attachment_sources } = o;
                    let ghost c_in = cursor;
                    let ghost occ_in = occupied@;
                    let ghost staged_in = staged@;
                    let mut pairs: Vec<(u64, String)> = Vec::new();
                    let mut j: usize = 0;
                    while j < attachment_sources.len()
                        invariant
                            j <= attachment_sources@.len(),
                            attachment_sources@.len() < 0x8000_0000,
                            pairs@.len() <= j,
                            (cursor, occupied@, pairs@) == spec_stage_sources(
                                c_in,
                                occ_in,
                                attachment_sources@,
                                j as int,
                            ),
                            c_in as int <= 0x8000_0000_0000_0000 + staged_in.len(),
                            staged_in.len() <= i as int * 0x8000_0000,
                            (i as int) < obs0.len(),
                            obs0.len() < 0x8000_0000,
                            cursor as int <= 0x8000_0000_0000_0000 + staged_in.len()
                                + pairs@.len(),
                            forall|k: int|
                                0 <= k < occupied@.len() ==> (#[trigger] occupied@[k]) as int
                                    <= 0x8000_0000_0000_0000 + staged_in.len() + pairs@.len(),
                        decreases attachment_sources@.len() - j,
                    {
                        proof {
                            assert(i as int * 0x8000_0000 <= 0x8000_0000 * 0x8000_0000)
                                by (nonlinear_arith)
                                requires
                                    0 <= i as int <= 0x8000_0000,
                            ;
                        }
                        match &attachment_sources[j] {
                            Some(src) => {
                                let n = cursor;
                                occupied.push(n);
                                proof {
                                    lemma_max_occ_bounds(occupied@, occupied@.len() as int);
                                    lemma_find_min_properties(n as int + 1, occupied@);
                                }
                                cursor = find_min_attachment_number(n + 1, &occupied);
                                pairs.push((n, src.clone()));
                            },
                            None => {},
                        }
                        j += 1;
                    }
                    // Record the staging actions for the caller.
                    let mut t: usize = 0;
                    while t < pairs.len()
                        invariant
                            t <= pairs@.len(),
                            staged@ =~= staged_in + pairs@.take(t as int),
                        decreases pairs@.len() - t,
                    {
                        let name = pairs[t].0;
                        let source = pairs[t].1.clone();
                        staged.push((name, source));
                        proof {
                            assert(staged@ =~= staged_in + pairs@.take(t as int + 1));
                        }
                        t += 1;
                    }
                    proof {
                        assert(pairs@.take(pairs@.len() as int) =~= pairs@);
                        assert(staged@.len() <= (i as int + 1) * 0x8000_0000) by (nonlinear_arith)
                            requires
                                staged@.len() <= i as int * 0x8000_0000 + 0x8000_0000,
                        ;
                    }
                    next.push((rid, StagedMessage { message, staged_attachments: pairs }));
                } else {
                    next.push(
                        (
                            rid,
                            StagedMessage { message: o.message, staged_attachments: Vec::new() },
                        ),
                    );
                }
                proof {
                    assert(loop_model(
                        working@,
                        seen@,
                        logged@,
                        next@,
                        cursor,
                        occupied@,
                        retractions@,
                        staged@,
                    ) =~~= spec_tick_step(m0, obs0[i as int]));
                }
            }
        }
        proof {
            assert(staged@.len() <= (i as int + 1) * 0x8000_0000) by (nonlinear_arith)
                requires
                    staged@.len() <= i as int * 0x8000_0000 + 0x8000_0000,
            ;
        }
        i += 1;
    }
    proof {
        assert(loop_model(working@, seen@, logged@, next@, cursor, occupied@, retractions@, staged@)
            == after_loop);
    }

    // Vanished messages: their staged files leave `tmp` and their numbers
    // become free again.
    let ghost disc_base = loop_model(
        working@,
        seen@,
        logged@,
        next@,
        cursor,
        occupied@,
        retractions@,
        staged@,
    );
    let mut discarded: Vec<u64> = Vec::new();
    let mut k: usize = 0;
    while k < working.len()
        invariant
            k <= working@.len(),
            disc_base.working == prev_view(working@),
            ({
                let cur = spec_discard_leftovers(disc_base, k as int);
                &&& discarded@ == cur.discarded
                &&& occupied@ == cur.occupied
            }),
        decreases working@.len() - k,
    {
        let ghost pre = spec_discard_leftovers(disc_base, k as int);
        let ghost pairs = working@[k as int].1.staged_attachments@;
        let count = working[k].1.staged_attachments.len();
        let mut j: usize = 0;
        while j < count
            invariant
                j <= count == pairs.len(),
                k < working@.len(),
                disc_base.working == prev_view(working@),
                pairs == working@[k as int].1.staged_attachments@,
                discarded@ =~= pre.discarded + spec_names_of(pairs).take(j as int),
                occupied@ =~= spec_remove_names(pre.occupied, pairs, j as int),
            decreases count - j,
        {
            let n = working[k].1.staged_attachments[j].0;
            discarded.push(n);
            remove_first_u64(&mut occupied, n);
            proof {
                assert(discarded@ =~= pre.discarded + spec_names_of(pairs).take(j as int + 1));
            }
            j += 1;
        }
        proof {
            assert(spec_names_of(pairs).take(pairs.len() as int) =~= spec_names_of(pairs));
            assert(prev_view(working@)[k as int].2 == pairs);
        }
        k += 1;
    }
    proof {
        assert(spec_discard_leftovers(disc_base, disc_base.working.len() as int)
            =~~= spec_discard_leftovers(after_loop, after_loop.working.len() as int));
        assert(spec_discard_leftovers(after_loop, after_loop.working.len() as int) == target);
        lemma_discard_preserves(disc_base, disc_base.working.len() as int);
        assert(prev_view(next@) == target.next);
        assert(logged@ == target.logged);
        assert(cursor == target.cursor);
        assert(retractions_view(retractions@) == target.retractions);
        assert(staged@ == target.staged);
        assert(discarded@ == target.discarded);
        assert(occupied@ == target.occupied);
    }

    let ghost final_retr = retractions_view(retractions@);
    let new_state = ReconcilerState {
        prev: next,
        cursor,
        occupied,
        logged,
        history: Ghost(history@ + Seq::new(final_retr.len(), |i: int| final_retr[i].0)),
    };
    (new_state, TickOutcome { retractions, staged, discarded })
}

/// Put a tracked entry back after a failed promotion: the staged files are
/// still in `tmp`, so the entry is kept and the retraction is retried on a
/// later tick.
pub fn reinstate(state: &mut ReconcilerState, retraction: Retraction)
    requires
        spec_entry_idx(prev_view(old(state).prev@), retraction.rowid, 0) == prev_view(
            old(state).prev@,
        ).len() as int,
    ensures
        final(state).prev@ == old(state).prev@.push(
            (retraction.rowid, retraction.entry),
        ),
        final(state).cursor == old(state).cursor,
        final(state).occupied == old(state).occupied,
        final(state).logged == old(state).logged,
        final(state).history == old(state).history,
{
    state.prev.push((retraction.rowid, retraction.entry));
}

/// Whether a rowid is currently tracked.
pub fn is_tracked(state: &ReconcilerState, rowid: i32) -> (r: bool)
    ensures
        r == (spec_entry_idx(prev_view(state.prev@), rowid, 0) < prev_view(state.prev@).len()),
{
    let ghost pv = prev_view(state.prev@);
    let mut f: usize = 0;
    while f < state.prev.len() && state.prev[f].0 != rowid
        invariant
            f <= state.prev@.len(),
            pv == prev_view(state.prev@),
            spec_entry_idx(pv, rowid, 0) == spec_entry_idx(pv, rowid, f as int),
        decreases state.prev@.len() - f,
    {
        f += 1;
    }
    proof {
        if f < state.prev@.len() {
            assert(spec_entry_idx(pv, rowid, 0) == f as int);
        } else {
            assert(spec_entry_idx(pv, rowid, 0) == pv.len() as int);
        }
    }
    f < state.prev.len()
}

/// A message that advertises no attachments allocates no attachment
/// number: processing it leaves the staged list, the cursor and the
/// occupied set untouched.
pub proof fn lemma_no_attachment_no_allocation(m: TickModel, o: Observation)
    requires
        o.message.num_attachments == 0,
    ensures
        spec_tick_step(m, o).staged == m.staged,
        spec_tick_step(m, o).cursor == m.cursor,
        spec_tick_step(m, o).occupied == m.occupied,
{
}

/// A message that appears fully unsent on its very first observation is
/// retracted on that same tick, with nothing to promote, and is never
/// tracked; its rowid is remembered so the same lingering row is skipped,
/// without a second record, on every later observation.
pub proof fn lemma_first_observation_unsent_retracts(m: TickModel, o: Observation)
    requires
        !m.seen.contains(o.message.rowid),
        spec_entry_idx(m.working, o.message.rowid, 0) == m.working.len() as int,
        spec_is_fully_unsent(o.message),
    ensures
        !m.logged.contains(o.message.rowid) ==> spec_tick_step(m, o).retractions
            == m.retractions.push(
            (o.message.rowid, o.message, Seq::<(u64, String)>::empty()),
        ) && spec_tick_step(m, o).logged == m.logged.push(o.message.rowid),
        m.logged.contains(o.message.rowid) ==> spec_tick_step(m, o).retractions == m.retractions,
        spec_tick_step(m, o).next == m.next,
        spec_tick_step(m, o).staged == m.staged,
{
}

proof fn lemma_discard_collects(m: TickModel, k: int)
    requires
        0 <= k <= m.working.len(),
    ensures
        forall|k0: int, j: int|
            #![trigger m.working[k0].2[j]]
            0 <= k0 < k && 0 <= j < m.working[k0].2.len() ==> spec_discard_leftovers(
                m,
                k,
            ).discarded.contains(m.working[k0].2[j].0),
    decreases k,
{
    if k > 0 {
        lemma_discard_collects(m, k - 1);
        let prior = spec_discard_leftovers(m, k - 1);
        let names = spec_names_of(m.working[k - 1].2);
        let cur = spec_discard_leftovers(m, k);
        assert(cur.discarded == prior.discarded + names);
        assert forall|k0: int, j: int|
            #![trigger m.working[k0].2[j]]
            0 <= k0 < k && 0 <= j < m.working[k0].2.len() implies cur.discarded.contains(
            m.working[k0].2[j].0,
        ) by {
            if k0 < k - 1 {
                assert(prior.discarded.contains(m.working[k0].2[j].0));
                let w = choose|w: int|
                    0 <= w < prior.discarded.len() && prior.discarded[w] == m.working[k0].2[j].0;
                assert(cur.discarded[w] == m.working[k0].2[j].0);
            } else {
                assert(names[j] == m.working[k0].2[j].0);
                assert(cur.discarded[prior.discarded.len() + j] == m.working[k0].2[j].0);
            }
        }
    }
}

/// No orphan stays behind after a vanish: every staged number of every
/// message that was tracked but not observed this tick is listed for
/// deletion from `tmp`.
pub proof fn lemma_vanished_files_discarded(
    prev: Seq<(i32, Message, Seq<(u64, String)>)>,
    cursor: u64,
    occupied: Seq<u64>,
    logged: Seq<i32>,
    obs: Seq<Observation>,
)
    ensures
        ({
            let m = spec_tick_model(prev, cursor, occupied, logged, obs);
            forall|k0: int, j: int|
                #![trigger m.working[k0].2[j]]
                0 <= k0 < m.working.len() && 0 <= j < m.working[k0].2.len()
                    ==> m.discarded.contains(m.working[k0].2[j].0)
        }),
{
    let init = TickModel {
        working: prev,
        seen: Seq::empty(),
        logged,
        next: Seq::empty(),
        cursor,
        occupied,
        retractions: Seq::empty(),
        staged: Seq::empty(),
        discarded: Seq::empty(),
    };
    let after = spec_tick_loop(init, obs, 0);
    let m = spec_tick_model(prev, cursor, occupied, logged, obs);
    lemma_discard_preserves(after, after.working.len() as int);
    lemma_discard_collects(after, after.working.len() as int);
    assert forall|k0: int, j: int|
        #![trigger m.working[k0].2[j]]
        0 <= k0 < m.working.len() && 0 <= j < m.working[k0].2.len() implies m.discarded.contains(
        m.working[k0].2[j].0,
    ) by {
        assert(m.working == after.working);
        assert(after.working[k0].2[j] == m.working[k0].2[j]);
    }
}


/// One step never tracks a fully unsent message: a fresh unsent message is
/// retracted at once and a tracked message that becomes unsent is
/// retracted, so the map only ever holds messages with content.
proof fn lemma_step_no_unsent(m: TickModel, o: Observation)
    requires
        forall|k: int|
            0 <= k < m.working.len() ==> !spec_is_fully_unsent((#[trigger] m.working[k]).1),
        forall|k: int| 0 <= k < m.next.len() ==> !spec_is_fully_unsent((#[trigger] m.next[k]).1),
    ensures
        forall|k: int|
            0 <= k < spec_tick_step(m, o).working.len() ==> !spec_is_fully_unsent(
                (#[trigger] spec_tick_step(m, o).working[k]).1,
            ),
        forall|k: int|
            0 <= k < spec_tick_step(m, o).next.len() ==> !spec_is_fully_unsent(
                (#[trigger] spec_tick_step(m, o).next[k]).1,
            ),
{
    let r = spec_tick_step(m, o);
    let rid = o.message.rowid;
    if !m.seen.contains(rid) {
        let f = spec_entry_idx(m.working, rid, 0);
        lemma_entry_idx_bounds(m.working, rid, 0);
        if f < m.working.len() {
            assert(r.working == m.working.remove(f));
            assert forall|k: int|
                0 <= k < r.working.len() implies !spec_is_fully_unsent(
                (#[trigger] r.working[k]).1,
            ) by {
                m.working.remove_ensures(f);
                if k < f {
                    assert(r.working[k] == m.working[k]);
                } else {
                    assert(r.working[k] == m.working[k + 1]);
                }
            }
            assert forall|k: int|
                0 <= k < r.next.len() implies !spec_is_fully_unsent((#[trigger] r.next[k]).1) by {
                if k < m.next.len() {
                    assert(r.next[k] == m.next[k]);
                } else {
                    assert(!spec_is_fully_unsent(m.working[f].1));
                    assert(r.next[k].1 == o.message);
                }
            }
        } else {
            assert forall|k: int|
                0 <= k < r.next.len() implies !spec_is_fully_unsent((#[trigger] r.next[k]).1) by {
                if k < m.next.len() {
                    assert(r.next[k] == m.next[k]);
                } else {
                    assert(r.next[k].1 == o.message);
                }
            }
        }
    }
}

proof fn lemma_loop_no_unsent(m: TickModel, obs: Seq<Observation>, i: int)
    requires
        forall|k: int|
            0 <= k < m.working.len() ==> !spec_is_fully_unsent((#[trigger] m.working[k]).1),
        forall|k: int| 0 <= k < m.next.len() ==> !spec_is_fully_unsent((#[trigger] m.next[k]).1),
    ensures
        forall|k: int|
            0 <= k < spec_tick_loop(m, obs, i).next.len() ==> !spec_is_fully_unsent(
                (#[trigger] spec_tick_loop(m, obs, i).next[k]).1,
            ),
    decreases obs.len() - i,
{
    if 0 <= i < obs.len() {
        lemma_step_no_unsent(m, obs[i]);
        lemma_loop_no_unsent(spec_tick_step(m, obs[i]), obs, i + 1);
        assert(spec_tick_loop(m, obs, i) == spec_tick_loop(spec_tick_step(m, obs[i]), obs, i + 1));
        assert forall|k: int|
            0 <= k < spec_tick_loop(m, obs, i).next.len() implies !spec_is_fully_unsent(
            (#[trigger] spec_tick_loop(m, obs, i).next[k]).1,
        ) by {
            assert(!spec_is_fully_unsent(
                spec_tick_loop(spec_tick_step(m, obs[i]), obs, i + 1).next[k].1,
            ));
        }
    }
}

/// Being fully unsent is absorbing: provided no tracked message is fully
/// unsent, the map after a tick still tracks none. A message that becomes
/// fully unsent is promoted on that very tick (or, when first observed
/// unsent, on its first tick) and leaves the map, never to be staged and
/// promoted again later.
pub proof fn lemma_unsent_never_tracked(
    prev: Seq<(i32, Message, Seq<(u64, String)>)>,
    cursor: u64,
    occupied: Seq<u64>,
    logged: Seq<i32>,
    obs: Seq<Observation>,
)
    requires
        forall|k: int| 0 <= k < prev.len() ==> !spec_is_fully_unsent((#[trigger] prev[k]).1),
    ensures
        forall|k: int|
            0 <= k < spec_tick_model(prev, cursor, occupied, logged, obs).next.len()
                ==> !spec_is_fully_unsent(
                (#[trigger] spec_tick_model(prev, cursor, occupied, logged, obs).next[k]).1,
            ),
{
    let init = TickModel {
        working: prev,
        seen: Seq::empty(),
        logged,
        next: Seq::empty(),
        cursor,
        occupied,
        retractions: Seq::empty(),
        staged: Seq::empty(),
        discarded: Seq::empty(),
    };
    let after = spec_tick_loop(init, obs, 0);
    lemma_loop_no_unsent(init, obs, 0);
    lemma_discard_preserves(after, after.working.len() as int);
}


/// Within one staging run, the allocated numbers strictly increase, start
/// at the cursor, and stay below the final cursor; each allocation raises
/// the numbering bound by at most one.
proof fn lemma_stage_sources_monotone(
    cursor: u64,
    occupied: Seq<u64>,
    sources: Seq<Option<String>>,
    j: int,
    bound: int,
)
    requires
        0 <= bound,
        cursor as int <= bound,
        forall|i: int| 0 <= i < occupied.len() ==> ((#[trigger] occupied[i]) as int) < bound,
        0 <= j <= sources.len(),
        bound + sources.len() <= 0xffff_ffff_ffff_fff0,
    ensures
        ({
            let r = spec_stage_sources(cursor, occupied, sources, j);
            &&& cursor <= r.0
            &&& r.2.len() <= j
            &&& r.0 as int <= bound + r.2.len()
            &&& forall|i: int|
                0 <= i < r.1.len() ==> ((#[trigger] r.1[i]) as int) < bound + r.2.len()
            &&& forall|a: int, b: int|
                0 <= a < b < r.2.len() ==> (#[trigger] r.2[a]).0 < (#[trigger] r.2[b]).0
            &&& forall|a: int| 0 <= a < r.2.len() ==> cursor <= (#[trigger] r.2[a]).0 < r.0
        }),
    decreases j,
{
    if j > 0 {
        lemma_stage_sources_monotone(cursor, occupied, sources, j - 1, bound);
        let prior = spec_stage_sources(cursor, occupied, sources, j - 1);
        let r = spec_stage_sources(cursor, occupied, sources, j);
        match sources[j - 1] {
            Option::Some(src) => {
                let n = prior.0;
                let taken = prior.1.push(n);
                assert(forall|i: int|
                    0 <= i < taken.len() ==> ((#[trigger] taken[i]) as int) < bound + r.2.len());
                lemma_max_occ_bounds(taken, taken.len() as int);
                lemma_find_min_properties(n as int + 1, taken);
                assert(r.0 as int >= n + 1);
                assert(r.0 as int <= spec_max_occ(taken, taken.len() as int) + 1 || r.0 as int == n
                    + 1);
                assert(spec_max_occ(taken, taken.len() as int) < bound + r.2.len());
            },
            Option::None => {},
        }
    }
}

/// One step only allocates at or above the current cursor, in increasing
/// order, and leaves the cursor at or above where it was.
proof fn lemma_step_staged_monotone(m: TickModel, o: Observation)
    requires
        m.cursor as int <= 0x8000_0000_0000_0000 + m.staged.len(),
        forall|i: int|
            0 <= i < m.occupied.len() ==> ((#[trigger] m.occupied[i]) as int)
                < 0x8000_0000_0000_0000 + m.staged.len(),
        o.attachment_sources@.len() < 0x8000_0000,
        m.staged.len() <= 0x4000_0000_0000_0000,
        forall|a: int, b: int|
            0 <= a < b < m.staged.len() ==> (#[trigger] m.staged[a]).0 < (#[trigger] m.staged[b]).0,
        forall|a: int| 0 <= a < m.staged.len() ==> (#[trigger] m.staged[a]).0 < m.cursor,
    ensures
        ({
            let r = spec_tick_step(m, o);
            &&& m.cursor <= r.cursor
            &&& m.staged.len() <= r.staged.len() <= m.staged.len()
                + o.attachment_sources@.len()
            &&& forall|k: int| 0 <= k < m.staged.len() ==> (#[trigger] r.staged[k]) == m.staged[k]
            &&& r.cursor as int <= 0x8000_0000_0000_0000 + r.staged.len()
            &&& forall|i: int|
                0 <= i < r.occupied.len() ==> ((#[trigger] r.occupied[i]) as int)
                    < 0x8000_0000_0000_0000 + r.staged.len()
            &&& forall|a: int, b: int|
                0 <= a < b < r.staged.len() ==> (#[trigger] r.staged[a]).0 < (
                #[trigger] r.staged[b]).0
            &&& forall|a: int| 0 <= a < r.staged.len() ==> (#[trigger] r.staged[a]).0 < r.cursor
            &&& forall|a: int|
                m.staged.len() <= a < r.staged.len() ==> m.cursor <= (#[trigger] r.staged[a]).0
        }),
{
    let r = spec_tick_step(m, o);
    let rid = o.message.rowid;
    if !m.seen.contains(rid) {
        let f = spec_entry_idx(m.working, rid, 0);
        lemma_entry_idx_bounds(m.working, rid, 0);
        if f >= m.working.len() && !spec_is_fully_unsent(o.message) && o.message.num_attachments
            != 0 {
            let sources = o.attachment_sources@;
            lemma_stage_sources_monotone(
                m.cursor,
                m.occupied,
                sources,
                sources.len() as int,
                0x8000_0000_0000_0000 + m.staged.len() as int,
            );
            let st = spec_stage_sources(m.cursor, m.occupied, sources, sources.len() as int);
            assert(r.staged == m.staged + st.2);
            assert forall|a: int, b: int|
                0 <= a < b < r.staged.len() implies (#[trigger] r.staged[a]).0 < (
            #[trigger] r.staged[b]).0 by {
                if b < m.staged.len() {
                } else if a < m.staged.len() {
                    assert(r.staged[a] == m.staged[a]);
                    assert(r.staged[b] == st.2[b - m.staged.len()]);
                    assert(m.staged[a].0 < m.cursor);
                    assert(st.2[b - m.staged.len()].0 >= m.cursor);
                } else {
                    assert(r.staged[a] == st.2[a - m.staged.len()]);
                    assert(r.staged[b] == st.2[b - m.staged.len()]);
                }
            }
        }
    }
}

/// Allocation over a whole tick is monotone: the staged numbers of the
/// tick strictly increase in allocation order, none is below the cursor
/// the tick began with, and the tick ends with a cursor above them all.
/// Two allocations in program order therefore always satisfy `n1 < n2`,
/// within a tick and across ticks alike.
pub proof fn lemma_loop_staged_monotone(m: TickModel, obs: Seq<Observation>, i: int)
    requires
        m.cursor as int <= 0x8000_0000_0000_0000 + m.staged.len(),
        forall|k: int|
            0 <= k < m.occupied.len() ==> ((#[trigger] m.occupied[k]) as int)
                < 0x8000_0000_0000_0000 + m.staged.len(),
        forall|k: int|
            0 <= k < obs.len() ==> (#[trigger] obs[k]).attachment_sources@.len() < 0x8000_0000,
        0 <= i ==> m.staged.len() + (obs.len() - i) * 0x8000_0000 <= 0x4000_0000_0000_0000,
        i > obs.len() ==> m.staged.len() <= 0x4000_0000_0000_0000,
        forall|a: int, b: int|
            0 <= a < b < m.staged.len() ==> (#[trigger] m.staged[a]).0 < (#[trigger] m.staged[b]).0,
        forall|a: int| 0 <= a < m.staged.len() ==> (#[trigger] m.staged[a]).0 < m.cursor,
    ensures
        ({
            let r = spec_tick_loop(m, obs, i);
            &&& m.cursor <= r.cursor
            &&& r.staged.len() >= m.staged.len()
            &&& forall|k: int| 0 <= k < m.staged.len() ==> (#[trigger] r.staged[k]) == m.staged[k]
            &&& forall|a: int, b: int|
                0 <= a < b < r.staged.len() ==> (#[trigger] r.staged[a]).0 < (
                #[trigger] r.staged[b]).0
            &&& forall|a: int| 0 <= a < r.staged.len() ==> (#[trigger] r.staged[a]).0 < r.cursor
            &&& forall|a: int|
                m.staged.len() <= a < r.staged.len() ==> m.cursor <= (#[trigger] r.staged[a]).0
        }),
    decreases obs.len() - i,
{
    if 0 <= i < obs.len() {
        assert((obs.len() - i) * 0x8000_0000 == (obs.len() - i - 1) * 0x8000_0000 + 0x8000_0000)
            by (nonlinear_arith);
        assert((obs.len() - i - 1) * 0x8000_0000 >= 0) by (nonlinear_arith)
            requires
                i < obs.len(),
        ;
        lemma_step_staged_monotone(m, obs[i]);
        lemma_loop_staged_monotone(spec_tick_step(m, obs[i]), obs, i + 1);
    }
}


/// Whether the map holds an entry with this rowid and exactly this
/// message.
pub open spec fn spec_has_entry(
    s: Seq<(i32, Message, Seq<(u64, String)>)>,
    rid: i32,
    msg: Message,
) -> bool {
    exists|k: int| 0 <= k < s.len() && (#[trigger] s[k]).0 == rid && s[k].1 == msg
}

/// With unique keys, the scan finds the entry that holds the rowid.
proof fn lemma_unique_entry_found(
    s: Seq<(i32, Message, Seq<(u64, String)>)>,
    rid: i32,
    msg: Message,
)
    requires
        forall|k1: int, k2: int|
            0 <= k1 < k2 < s.len() ==> (#[trigger] s[k1]).0 != (#[trigger] s[k2]).0,
        spec_has_entry(s, rid, msg),
    ensures
        spec_entry_idx(s, rid, 0) < s.len(),
        s[spec_entry_idx(s, rid, 0)].1 == msg,
{
    lemma_entry_idx_bounds(s, rid, 0);
    let w = choose|k: int| 0 <= k < s.len() && (#[trigger] s[k]).0 == rid && s[k].1 == msg;
    let f = spec_entry_idx(s, rid, 0);
    assert(s[w].0 == rid);
    if f > w {
        assert(s[w].0 != rid);
    }
    if f < w {
        assert(s[f].0 == rid);
        assert(s[f].0 != s[w].0);
    }
}

/// The running shape of a quiescent tick: nothing decided yet, every
/// remaining observation still has its identical tracked entry, and every
/// remaining entry will still be observed.
/// Whether some observation at or after `i` carries this rowid.
pub open spec fn spec_observed_later(obs: Seq<Observation>, i: int, rid: i32) -> bool {
    exists|j: int| i <= j < obs.len() && (#[trigger] obs[j]).message.rowid == rid
}

/// No tracked entry carries this rowid.
pub open spec fn spec_absent(
    working: Seq<(i32, Message, Seq<(u64, String)>)>,
    rid: i32,
) -> bool {
    forall|k: int| 0 <= k < working.len() ==> (#[trigger] working[k]).0 != rid
}

/// The running shape of a quiescent tick at observation `i`: the seen
/// list mirrors the processed observations, the tracked entries have
/// unique rowids, every remaining observation either repeats a tracked
/// entry exactly or is a lingering fully unsent row whose retraction is
/// already remembered, and every tracked entry is still to be observed.
pub open spec fn spec_static_inv(
    working: Seq<(i32, Message, Seq<(u64, String)>)>,
    seen: Seq<i32>,
    logged: Seq<i32>,
    obs: Seq<Observation>,
    i: int,
) -> bool {
    &&& 0 <= i <= obs.len()
    &&& seen.len() == i
    &&& forall|k: int| 0 <= k < i ==> seen[k] == (#[trigger] obs[k]).message.rowid
    &&& forall|a: int, b: int|
        0 <= a < b < obs.len() ==> (#[trigger] obs[a]).message.rowid != (
        #[trigger] obs[b]).message.rowid
    &&& forall|k1: int, k2: int|
        0 <= k1 < k2 < working.len() ==> (#[trigger] working[k1]).0 != (#[trigger] working[k2]).0
    &&& forall|j: int|
        i <= j < obs.len() ==> spec_has_entry(
            working,
            (#[trigger] obs[j]).message.rowid,
            obs[j].message,
        ) || (spec_is_fully_unsent(obs[j].message) && logged.contains(obs[j].message.rowid)
            && spec_absent(working, obs[j].message.rowid))
    &&& forall|k: int|
        0 <= k < working.len() ==> spec_observed_later(obs, i, (#[trigger] working[k]).0)
}

/// One step of a quiescent tick: a repeated tracked entry is matched and
/// carried without a transition, a remembered unsent row is skipped, and
/// the invariant shape survives.
proof fn lemma_static_step(m: TickModel, obs: Seq<Observation>, i: int)
    requires
        0 <= i < obs.len(),
        spec_static_inv(m.working, m.seen, m.logged, obs, i),
    ensures
        ({
            let m2 = spec_tick_step(m, obs[i]);
            &&& m2.retractions == m.retractions
            &&& m2.staged == m.staged
            &&& m2.discarded == m.discarded
            &&& m2.cursor == m.cursor
            &&& m2.occupied == m.occupied
            &&& m2.logged == m.logged
            &&& spec_static_inv(m2.working, m2.seen, m2.logged, obs, i + 1)
        }),
{
    let o = obs[i];
    let rid = o.message.rowid;
    assert(!m.seen.contains(rid)) by {
        if m.seen.contains(rid) {
            let w = choose|k: int| 0 <= k < m.seen.len() && m.seen[k] == rid;
            assert(obs[w].message.rowid == obs[i].message.rowid);
        }
    }
    let m2 = spec_tick_step(m, o);
    if spec_has_entry(m.working, rid, o.message) {
        lemma_unique_entry_found(m.working, rid, o.message);
        let f = spec_entry_idx(m.working, rid, 0);
        lemma_entry_idx_bounds(m.working, rid, 0);
        // The tracked message equals the observed one, so the transition
        // test cannot fire in either direction.
        assert(m.working[f].1 == o.message);
        assert(m2.working == m.working.remove(f));
        m.working.remove_ensures(f);
        assert forall|j: int|
            i + 1 <= j < obs.len() implies spec_has_entry(
            m2.working,
            (#[trigger] obs[j]).message.rowid,
            obs[j].message,
        ) || (spec_is_fully_unsent(obs[j].message) && m.logged.contains(obs[j].message.rowid)
            && spec_absent(m2.working, obs[j].message.rowid)) by {
            let rj = obs[j].message.rowid;
            assert(rj != rid);
            if spec_has_entry(m.working, rj, obs[j].message) {
                let w = choose|k: int|
                    0 <= k < m.working.len() && (#[trigger] m.working[k]).0 == rj && m.working[k].1
                        == obs[j].message;
                assert(w != f);
                if w < f {
                    assert(m2.working[w] == m.working[w]);
                } else {
                    assert(m2.working[w - 1] == m.working[w]);
                }
            } else {
                assert(spec_absent(m.working, rj));
                assert forall|k: int|
                    0 <= k < m2.working.len() implies (#[trigger] m2.working[k]).0 != rj by {
                    if k < f {
                        assert(m2.working[k] == m.working[k]);
                    } else {
                        assert(m2.working[k] == m.working[k + 1]);
                    }
                }
            }
        }
        assert forall|k: int|
            0 <= k < m2.working.len() implies spec_observed_later(
            obs,
            i + 1,
            (#[trigger] m2.working[k]).0,
        ) by {
            let e = if k < f {
                m.working[k]
            } else {
                m.working[k + 1]
            };
            assert(m2.working[k] == e);
            assert(spec_observed_later(obs, i, e.0));
            let j = choose|j: int| i <= j < obs.len() && (#[trigger] obs[j]).message.rowid == e.0;
            assert(e.0 != m.working[f].0);
            assert(obs[j].message.rowid != rid);
            assert(j != i);
            assert(i + 1 <= j < obs.len() && obs[j].message.rowid == m2.working[k].0);
        }
        assert forall|k1: int, k2: int|
            0 <= k1 < k2 < m2.working.len() implies (#[trigger] m2.working[k1]).0 != (
        #[trigger] m2.working[k2]).0 by {
            let e1 = if k1 < f {
                m.working[k1]
            } else {
                m.working[k1 + 1]
            };
            let e2 = if k2 < f {
                m.working[k2]
            } else {
                m.working[k2 + 1]
            };
            assert(m2.working[k1] == e1 && m2.working[k2] == e2);
        }
    } else {
        // A lingering, already-logged unsent row: it is untracked and
        // remembered, so the step only marks it seen.
        assert(spec_is_fully_unsent(o.message) && m.logged.contains(rid) && spec_absent(
            m.working,
            rid,
        ));
        lemma_entry_idx_bounds(m.working, rid, 0);
        let f = spec_entry_idx(m.working, rid, 0);
        if f < m.working.len() {
            assert(m.working[f].0 != rid);
        }
        assert(f == m.working.len() as int);
        assert(m2.working == m.working);
        assert forall|k: int|
            0 <= k < m2.working.len() implies spec_observed_later(
            obs,
            i + 1,
            (#[trigger] m2.working[k]).0,
        ) by {
            assert(spec_observed_later(obs, i, m.working[k].0));
            let j = choose|j: int|
                i <= j < obs.len() && (#[trigger] obs[j]).message.rowid == m.working[k].0;
            assert(m.working[k].0 != rid);
            assert(j != i);
        }
    }
}

/// Folding a quiescent tick to its end leaves nothing decided and no
/// entry unmatched.
proof fn lemma_static_loop(m: TickModel, obs: Seq<Observation>, i: int)
    requires
        m.retractions == Seq::<(i32, Message, Seq<(u64, String)>)>::empty(),
        m.staged == Seq::<(u64, String)>::empty(),
        m.discarded == Seq::<u64>::empty(),
        spec_static_inv(m.working, m.seen, m.logged, obs, i),
    ensures
        ({
            let r = spec_tick_loop(m, obs, i);
            &&& r.retractions == Seq::<(i32, Message, Seq<(u64, String)>)>::empty()
            &&& r.staged == Seq::<(u64, String)>::empty()
            &&& r.discarded == Seq::<u64>::empty()
            &&& r.cursor == m.cursor
            &&& r.occupied == m.occupied
            &&& r.logged == m.logged
            &&& r.working.len() == 0
        }),
    decreases obs.len() - i,
{
    if i >= obs.len() {
        if m.working.len() > 0 {
            assert(spec_observed_later(obs, i, m.working[0].0));
            let j = choose|j: int|
                i <= j < obs.len() && (#[trigger] obs[j]).message.rowid == m.working[0].0;
            assert(false);
        }
        assert(m.working.len() == 0);
    } else {
        lemma_static_step(m, obs, i);
        lemma_static_loop(spec_tick_step(m, obs[i]), obs, i + 1);
    }
}

/// Over a static, unchanging database the reconciler is quiescent: when
/// every observation either repeats a tracked message exactly or is a
/// lingering fully unsent row whose retraction was already recorded, and
/// every tracked message is observed again, a tick retracts nothing,
/// stages nothing, discards nothing, and leaves the numbering and the
/// record memory untouched — so no log record is appended and no file
/// reaches permanent storage, tick after tick.
pub proof fn lemma_static_database_quiescent(
    prev: Seq<(i32, Message, Seq<(u64, String)>)>,
    cursor: u64,
    occupied: Seq<u64>,
    logged: Seq<i32>,
    obs: Seq<Observation>,
)
    requires
        forall|a: int, b: int|
            0 <= a < b < obs.len() ==> (#[trigger] obs[a]).message.rowid != (
            #[trigger] obs[b]).message.rowid,
        forall|k1: int, k2: int|
            0 <= k1 < k2 < prev.len() ==> (#[trigger] prev[k1]).0 != (#[trigger] prev[k2]).0,
        forall|j: int|
            0 <= j < obs.len() ==> spec_has_entry(
                prev,
                (#[trigger] obs[j]).message.rowid,
                obs[j].message,
            ) || (spec_is_fully_unsent(obs[j].message) && logged.contains(obs[j].message.rowid)
                && spec_absent(prev, obs[j].message.rowid)),
        forall|k: int| 0 <= k < prev.len() ==> spec_observed_later(obs, 0, (#[trigger] prev[k]).0),
    ensures
        ({
            let m = spec_tick_model(prev, cursor, occupied, logged, obs);
            &&& m.retractions == Seq::<(i32, Message, Seq<(u64, String)>)>::empty()
            &&& m.staged == Seq::<(u64, String)>::empty()
            &&& m.discarded == Seq::<u64>::empty()
            &&& m.cursor == cursor
            &&& m.occupied == occupied
            &&& m.logged == logged
        }),
{
    let init = TickModel {
        working: prev,
        seen: Seq::empty(),
        logged,
        next: Seq::empty(),
        cursor,
        occupied,
        retractions: Seq::empty(),
        staged: Seq::empty(),
        discarded: Seq::empty(),
    };
    assert(spec_static_inv(prev, Seq::empty(), logged, obs, 0));
    assert(init.working == prev && init.seen == Seq::<i32>::empty());
    lemma_static_loop(init, obs, 0);
    let after = spec_tick_loop(init, obs, 0);
    lemma_discard_preserves(after, after.working.len() as int);
}


/// One step never retracts a remembered, untracked rowid, and keeps it
/// remembered and untracked.
proof fn lemma_logged_step_skips(m: TickModel, o: Observation, rid: i32)
    requires
        m.logged.contains(rid),
        spec_absent(m.working, rid),
        forall|k: int| 0 <= k < m.retractions.len() ==> (#[trigger] m.retractions[k]).0 != rid,
    ensures
        ({
            let m2 = spec_tick_step(m, o);
            &&& m2.logged.contains(rid)
            &&& spec_absent(m2.working, rid)
            &&& forall|k: int|
                0 <= k < m2.retractions.len() ==> (#[trigger] m2.retractions[k]).0 != rid
        }),
{
    let o_rid = o.message.rowid;
    let m2 = spec_tick_step(m, o);
    if !m.seen.contains(o_rid) {
        let f = spec_entry_idx(m.working, o_rid, 0);
        lemma_entry_idx_bounds(m.working, o_rid, 0);
        if f < m.working.len() {
            assert(m.working[f].0 == o_rid);
            assert(o_rid != rid);
            m.working.remove_ensures(f);
            assert forall|k: int|
                0 <= k < m2.working.len() implies (#[trigger] m2.working[k]).0 != rid by {
                if k < f {
                    assert(m2.working[k] == m.working[k]);
                } else {
                    assert(m2.working[k] == m.working[k + 1]);
                }
            }
            if spec_is_fully_unsent(o.message) && !spec_is_fully_unsent(m.working[f].1) {
                assert(m2.retractions == m.retractions.push(m.working[f]));
                assert(m2.logged == m.logged.push(o_rid));
                let w = choose|w: int| 0 <= w < m.logged.len() && m.logged[w] == rid;
                assert(m2.logged[w] == rid);
            }
        } else {
            if spec_is_fully_unsent(o.message) && !m.logged.contains(o_rid) {
                assert(o_rid != rid);
                assert(m2.retractions == m.retractions.push(
                    (o_rid, o.message, Seq::<(u64, String)>::empty()),
                ));
                let w = choose|w: int| 0 <= w < m.logged.len() && m.logged[w] == rid;
                assert(m2.logged[w] == rid);
            }
        }
    }
}

proof fn lemma_logged_loop_skips(m: TickModel, obs: Seq<Observation>, i: int, rid: i32)
    requires
        m.logged.contains(rid),
        spec_absent(m.working, rid),
        forall|k: int| 0 <= k < m.retractions.len() ==> (#[trigger] m.retractions[k]).0 != rid,
    ensures
        forall|k: int|
            0 <= k < spec_tick_loop(m, obs, i).retractions.len() ==> (#[trigger] spec_tick_loop(
                m,
                obs,
                i,
            ).retractions[k]).0 != rid,
    decreases obs.len() - i,
{
    if 0 <= i < obs.len() {
        lemma_logged_step_skips(m, obs[i], rid);
        lemma_logged_loop_skips(spec_tick_step(m, obs[i]), obs, i + 1, rid);
        assert(spec_tick_loop(m, obs, i) == spec_tick_loop(spec_tick_step(m, obs[i]), obs, i + 1));
    }
}

/// Being retracted is final: once a rowid's record has been written and
/// the rowid left the map, no later tick retracts it again, whatever the
/// lingering fully unsent row looks like when it is observed. Together
/// with the transition rule this makes the fully unsent state absorbing:
/// a message is promoted on the tick it becomes fully unsent (or on its
/// first observation), exactly once.
pub proof fn lemma_logged_never_reretracted(
    prev: Seq<(i32, Message, Seq<(u64, String)>)>,
    cursor: u64,
    occupied: Seq<u64>,
    logged: Seq<i32>,
    obs: Seq<Observation>,
    rid: i32,
)
    requires
        logged.contains(rid),
        spec_absent(prev, rid),
    ensures
        ({
            let m = spec_tick_model(prev, cursor, occupied, logged, obs);
            forall|k: int|
                0 <= k < m.retractions.len() ==> (#[trigger] m.retractions[k]).0 != rid
        }),
{
    let init = TickModel {
        working: prev,
        seen: Seq::empty(),
        logged,
        next: Seq::empty(),
        cursor,
        occupied,
        retractions: Seq::empty(),
        staged: Seq::empty(),
        discarded: Seq::empty(),
    };
    lemma_logged_loop_skips(init, obs, 0, rid);
    let after = spec_tick_loop(init, obs, 0);
    lemma_discard_preserves(after, after.working.len() as int);
}

/// Log records append in temporal order: the history after a tick starts
/// with the history before it, so the records of earlier retraction ticks
/// always precede those of later ones.
pub proof fn lemma_history_append_only(before: Seq<i32>, added: Seq<i32>, after: Seq<i32>)
    requires
        after == before + added,
    ensures
        after.len() >= before.len(),
        forall|k: int| 0 <= k < before.len() ==> after[k] == before[k],
{
}

/// Whether the map holds an entry with this rowid and exactly these
/// staged attachments.
pub open spec fn spec_has_pairs(
    s: Seq<(i32, Message, Seq<(u64, String)>)>,
    rid: i32,
    pairs: Seq<(u64, String)>,
) -> bool {
    exists|k: int| 0 <= k < s.len() && (#[trigger] s[k]).0 == rid && s[k].2 == pairs
}

proof fn lemma_step_pairs_carried(
    prev: Seq<(i32, Message, Seq<(u64, String)>)>,
    m: TickModel,
    o: Observation,
)
    requires
        forall|k: int|
            0 <= k < m.working.len() ==> spec_has_pairs(
                prev,
                (#[trigger] m.working[k]).0,
                m.working[k].2,
            ),
        forall|k: int|
            0 <= k < m.retractions.len() ==> spec_has_pairs(
                prev,
                (#[trigger] m.retractions[k]).0,
                m.retractions[k].2,
            ) || m.retractions[k].2 == Seq::<(u64, String)>::empty(),
    ensures
        ({
            let r = spec_tick_step(m, o);
            &&& forall|k: int|
                0 <= k < r.working.len() ==> spec_has_pairs(
                    prev,
                    (#[trigger] r.working[k]).0,
                    r.working[k].2,
                )
            &&& forall|k: int|
                0 <= k < r.retractions.len() ==> spec_has_pairs(
                    prev,
                    (#[trigger] r.retractions[k]).0,
                    r.retractions[k].2,
                ) || r.retractions[k].2 == Seq::<(u64, String)>::empty()
        }),
{
    let r = spec_tick_step(m, o);
    let rid = o.message.rowid;
    if !m.seen.contains(rid) {
        let f = spec_entry_idx(m.working, rid, 0);
        lemma_entry_idx_bounds(m.working, rid, 0);
        if f < m.working.len() {
            assert forall|k: int|
                0 <= k < r.working.len() implies spec_has_pairs(
                prev,
                (#[trigger] r.working[k]).0,
                r.working[k].2,
            ) by {
                m.working.remove_ensures(f);
                if k < f {
                    assert(r.working[k] == m.working[k]);
                } else {
                    assert(r.working[k] == m.working[k + 1]);
                }
            }
            assert forall|k: int|
                0 <= k < r.retractions.len() implies spec_has_pairs(
                prev,
                (#[trigger] r.retractions[k]).0,
                r.retractions[k].2,
            ) || r.retractions[k].2 == Seq::<(u64, String)>::empty() by {
                if k < m.retractions.len() {
                    assert(r.retractions[k] == m.retractions[k]);
                } else {
                    assert(r.retractions[k] == m.working[f]);
                }
            }
        }
    }
}

/// What a retraction promotes is exactly what was staged when the message
/// was first observed: every retraction of a tick either carries the
/// staged attachments its rowid had in the previous map, unchanged, or
/// carries none because the message was first observed already unsent.
pub proof fn lemma_promoted_pairs_from_staging(
    prev: Seq<(i32, Message, Seq<(u64, String)>)>,
    cursor: u64,
    occupied: Seq<u64>,
    logged: Seq<i32>,
    obs: Seq<Observation>,
)
    ensures
        ({
            let m = spec_tick_model(prev, cursor, occupied, logged, obs);
            forall|k: int|
                0 <= k < m.retractions.len() ==> spec_has_pairs(
                    prev,
                    (#[trigger] m.retractions[k]).0,
                    m.retractions[k].2,
                ) || m.retractions[k].2 == Seq::<(u64, String)>::empty()
        }),
{
    let init = TickModel {
        working: prev,
        seen: Seq::empty(),
        logged,
        next: Seq::empty(),
        cursor,
        occupied,
        retractions: Seq::empty(),
        staged: Seq::empty(),
        discarded: Seq::empty(),
    };
    assert forall|k: int|
        0 <= k < init.working.len() implies spec_has_pairs(
        prev,
        (#[trigger] init.working[k]).0,
        init.working[k].2,
    ) by {
        assert(prev[k].0 == init.working[k].0 && prev[k].2 == init.working[k].2);
    }
    lemma_loop_pairs_carried(prev, init, obs, 0);
    let after = spec_tick_loop(init, obs, 0);
    lemma_discard_preserves(after, after.working.len() as int);
}

proof fn lemma_loop_pairs_carried(
    prev: Seq<(i32, Message, Seq<(u64, String)>)>,
    m: TickModel,
    obs: Seq<Observation>,
    i: int,
)
    requires
        forall|k: int|
            0 <= k < m.working.len() ==> spec_has_pairs(
                prev,
                (#[trigger] m.working[k]).0,
                m.working[k].2,
            ),
        forall|k: int|
            0 <= k < m.retractions.len() ==> spec_has_pairs(
                prev,
                (#[trigger] m.retractions[k]).0,
                m.retractions[k].2,
            ) || m.retractions[k].2 == Seq::<(u64, String)>::empty(),
    ensures
        forall|k: int|
            0 <= k < spec_tick_loop(m, obs, i).retractions.len() ==> spec_has_pairs(
                prev,
                (#[trigger] spec_tick_loop(m, obs, i).retractions[k]).0,
                spec_tick_loop(m, obs, i).retractions[k].2,
            ) || spec_tick_loop(m, obs, i).retractions[k].2 == Seq::<(u64, String)>::empty(),
    decreases obs.len() - i,
{
    if 0 <= i < obs.len() {
        lemma_step_pairs_carried(prev, m, obs[i]);
        lemma_loop_pairs_carried(prev, spec_tick_step(m, obs[i]), obs, i + 1);
        assert(spec_tick_loop(m, obs, i) == spec_tick_loop(spec_tick_step(m, obs[i]), obs, i + 1));
    }
}

} // verus!
