use vstd::prelude::*;
use crate::engine::{evict_expired, map_wf, step_fires, step_map, Record};
use crate::text::lower_of;

verus! {

/// Threshold correctness: an event fires exactly when it is the
/// `threshold`-th distinct contributor to its text — after expired entries
/// are dropped, either the surviving entry already held `threshold - 1`
/// contributors other than the event's author, or the text was not tracked
/// and the threshold is one. A firing entry is removed by the same event, so
/// the action comes immediately with the deciding contribution and only then.
pub proof fn lemma_threshold_fires(
    m: Map<Seq<char>, Record>,
    key: Seq<char>,
    author: Seq<char>,
    now: u64,
    threshold: usize,
    ttl: u64,
    clock: u64,
)
    requires
        map_wf(m, threshold, clock),
        now >= clock,
    ensures
        step_fires(m, key, author, now, threshold, ttl) <==> ({
            let m1 = evict_expired(m, now, ttl);
            if m1.contains_key(key) {
                !m1[key].authors.contains(author) && m1[key].authors.len() == threshold - 1
            } else {
                threshold <= 1
            }
        }),
        step_fires(m, key, author, now, threshold, ttl) ==> !step_map(
            m,
            key,
            author,
            now,
            threshold,
            ttl,
        ).contains_key(key),
{
    broadcast use vstd::set::group_set_axioms;

    let m1 = evict_expired(m, now, ttl);
    if m1.contains_key(key) {
        assert(m.contains_key(key) && m1[key] == m[key]);
        assert(m[key].authors.len() < threshold);
    } else {
        assert(Set::<Seq<char>>::empty().insert(author).len() == 1);
    }
}

/// Duplicate-author no-op: when the author has already contributed to a
/// still-live entry, the event leaves that entry exactly as it was — neither
/// the contributor set nor the recency stamp changes — and nothing fires.
pub proof fn lemma_duplicate_author_noop(
    m: Map<Seq<char>, Record>,
    key: Seq<char>,
    author: Seq<char>,
    now: u64,
    threshold: usize,
    ttl: u64,
    clock: u64,
)
    requires
        map_wf(m, threshold, clock),
        evict_expired(m, now, ttl).contains_key(key),
        evict_expired(m, now, ttl)[key].authors.contains(author),
    ensures
        !step_fires(m, key, author, now, threshold, ttl),
        step_map(m, key, author, now, threshold, ttl).contains_key(key),
        step_map(m, key, author, now, threshold, ttl)[key] == evict_expired(m, now, ttl)[key],
{
    let m1 = evict_expired(m, now, ttl);
    assert(m.contains_key(key) && m1[key] == m[key]);
    assert(m[key].authors.len() < threshold);
}

/// Case-insensitivity: the engine sees a raw text only through its
/// case-folded form, so two texts that fold to the same key drive one and
/// the same entry, and an event carrying either has the same effect.
pub proof fn lemma_case_insensitive(
    m: Map<Seq<char>, Record>,
    a: Seq<char>,
    b: Seq<char>,
    author: Seq<char>,
    now: u64,
    threshold: usize,
    ttl: u64,
)
    requires
        lower_of(a) == lower_of(b),
    ensures
        step_map(m, lower_of(a), author, now, threshold, ttl) == step_map(
            m,
            lower_of(b),
            author,
            now,
            threshold,
            ttl,
        ),
        step_fires(m, lower_of(a), author, now, threshold, ttl) == step_fires(
            m,
            lower_of(b),
            author,
            now,
            threshold,
            ttl,
        ),
{
}

/// TTL eviction: an entry idle for `ttl` or longer is removed by the very
/// next event, whatever text that event carries, and nothing is ever spoken
/// for it. When the event carries the same text, the entry that may stand
/// afterwards is brand new — the event's author is its only contributor —
/// and such a fresh entry fires only when the threshold is one.
pub proof fn lemma_ttl_eviction(
    m: Map<Seq<char>, Record>,
    stale: Seq<char>,
    key: Seq<char>,
    author: Seq<char>,
    now: u64,
    threshold: usize,
    ttl: u64,
    clock: u64,
)
    requires
        map_wf(m, threshold, clock),
        m.contains_key(stale),
        now - m[stale].stamp >= ttl,
    ensures
        !evict_expired(m, now, ttl).contains_key(stale),
        stale != key ==> !step_map(m, key, author, now, threshold, ttl).contains_key(stale),
        stale == key && step_map(m, key, author, now, threshold, ttl).contains_key(key)
            ==> step_map(m, key, author, now, threshold, ttl)[key] == (Record {
            authors: Set::empty().insert(author),
            stamp: now,
        }),
        stale == key ==> (step_fires(m, key, author, now, threshold, ttl) <==> threshold <= 1),
{
    broadcast use vstd::set::group_set_axioms;

    let m1 = evict_expired(m, now, ttl);
    assert(!m1.contains_key(stale));
    if stale == key {
        assert(Set::<Seq<char>>::empty().insert(author).len() == 1);
    }
}

/// At-most-once firing: a text that fires has its entry removed in the same
/// step, and every entry the engine keeps stays strictly under the
/// threshold, so no text can be spoken twice without its entry being evicted
/// or consumed and rebuilt from scratch in between.
pub proof fn lemma_at_most_once(
    m: Map<Seq<char>, Record>,
    key: Seq<char>,
    author: Seq<char>,
    now: u64,
    threshold: usize,
    ttl: u64,
    clock: u64,
)
    requires
        map_wf(m, threshold, clock),
        now >= clock,
    ensures
        step_fires(m, key, author, now, threshold, ttl) ==> !step_map(
            m,
            key,
            author,
            now,
            threshold,
            ttl,
        ).contains_key(key),
        map_wf(step_map(m, key, author, now, threshold, ttl), threshold, now),
{
    broadcast use vstd::set::group_set_axioms;

    let m1 = evict_expired(m, now, ttl);
    let m2 = step_map(m, key, author, now, threshold, ttl);
    assert forall|k: Seq<char>| m2.contains_key(k) implies ((#[trigger] m2[k]).authors.finite()
        && m2[k].authors.len() >= 1 && m2[k].authors.len() < threshold && m2[k].stamp
        <= now) by {
        if k == key {
            if m1.contains_key(key) {
                assert(m.contains_key(key) && m1[key] == m[key]);
            } else {
                assert(Set::<Seq<char>>::empty().insert(author).len() == 1);
            }
        } else {
            assert(m1.contains_key(k));
            assert(m.contains_key(k) && m1[k] == m[k]);
        }
    }
}

/// One event as the engine's mathematics sees it: who contributed, to which
/// folded text, and when.
pub ghost struct Event {
    pub author: Seq<char>,
    pub key: Seq<char>,
    pub at: u64,
}

/// How many times an ordered event sequence, replayed from state `m`, speaks
/// the text `key`.
pub open spec fn run_fire_count(
    m: Map<Seq<char>, Record>,
    events: Seq<Event>,
    threshold: usize,
    ttl: u64,
    key: Seq<char>,
) -> nat
    decreases events.len(),
{
    if events.len() == 0 {
        0
    } else {
        let e = events.first();
        let fired: nat = if e.key == key && step_fires(m, e.key, e.author, e.at, threshold, ttl) {
            1
        } else {
            0
        };
        fired + run_fire_count(
            step_map(m, e.key, e.author, e.at, threshold, ttl),
            events.drop_first(),
            threshold,
            ttl,
            key,
        )
    }
}

/// The inductive heart of the burst law: the entry for `key` already holds
/// `held` contributors, the coming events complete it to the threshold — all
/// for `key`, all by fresh and pairwise-distinct authors, in order, each
/// within `ttl` of the one before — and exactly the last of them speaks.
proof fn lemma_burst_completes(
    m: Map<Seq<char>, Record>,
    events: Seq<Event>,
    threshold: usize,
    ttl: u64,
    clock: u64,
    key: Seq<char>,
    held: nat,
)
    requires
        map_wf(m, threshold, clock),
        events.len() >= 1,
        events.len() + held == threshold,
        held == 0 ==> !m.contains_key(key),
        held >= 1 ==> m.contains_key(key) && m[key].authors.len() == held && events[0].at
            - m[key].stamp < ttl && (forall|i: int|
            0 <= i < events.len() ==> !m[key].authors.contains(
                (#[trigger] events[i]).author,
            )),
        forall|i: int| 0 <= i < events.len() ==> (#[trigger] events[i]).key == key,
        forall|i: int, j: int|
            0 <= i < j < events.len() ==> events[i].author != events[j].author,
        forall|i: int| 0 <= i < events.len() ==> clock <= (#[trigger] events[i]).at,
        forall|i: int, j: int| 0 <= i < j < events.len() ==> events[i].at <= events[j].at,
        forall|i: int|
            0 < i < events.len() ==> (#[trigger] events[i]).at - events[i - 1].at < ttl,
    ensures
        run_fire_count(m, events, threshold, ttl, key) == 1,
        run_fire_count(m, events.take(events.len() - 1), threshold, ttl, key) == 0,
    decreases events.len(),
{
    broadcast use vstd::set::group_set_axioms;

    let e = events.first();
    let m1 = evict_expired(m, e.at, ttl);
    let r = crate::engine::touched(m1, key, e.author, e.at);
    if held >= 1 {
        assert(m1.contains_key(key) && m1[key] == m[key]);
        assert(!m[key].authors.contains(e.author));
        assert(r.authors == m[key].authors.insert(e.author));
        assert(r.authors.len() == held + 1);
    } else {
        assert(!m1.contains_key(key));
        assert(r.authors =~= Set::<Seq<char>>::empty().insert(e.author));
        assert(r.authors.len() == 1);
    }
    let m2 = step_map(m, key, e.author, e.at, threshold, ttl);
    let rest = events.drop_first();
    if events.len() == 1 {
        assert(r.authors.len() == threshold);
        assert(step_fires(m, key, e.author, e.at, threshold, ttl));
        assert(run_fire_count(m2, rest, threshold, ttl, key) == 0);
        assert(events.take(0) =~= Seq::<Event>::empty());
    } else {
        assert(r.authors.len() < threshold);
        assert(!step_fires(m, key, e.author, e.at, threshold, ttl));
        assert(m2 == m1.insert(key, r));
        assert(m2.contains_key(key) && m2[key] == r);
        lemma_at_most_once(m, key, e.author, e.at, threshold, ttl, clock);
        assert forall|i: int| 0 <= i < rest.len() implies !m2[key].authors.contains(
            (#[trigger] rest[i]).author,
        ) by {
            assert(rest[i] == events[i + 1]);
            assert(events[0].author != events[i + 1].author);
            if held >= 1 {
                assert(!m[key].authors.contains(events[i + 1].author));
            }
        }
        lemma_burst_completes(m2, rest, threshold, ttl, e.at, key, held + 1);
        assert(run_fire_count(m, events, threshold, ttl, key) == run_fire_count(
            m2,
            rest,
            threshold,
            ttl,
            key,
        ));
        let front = events.take(events.len() - 1);
        assert(front.first() == e);
        assert(front.drop_first() =~= rest.take(rest.len() - 1));
        assert(run_fire_count(m, front, threshold, ttl, key) == run_fire_count(
            m2,
            rest.take(rest.len() - 1),
            threshold,
            ttl,
            key,
        ));
    }
}

/// Threshold correctness over a whole burst: when exactly `threshold`
/// distinct authors send the same folded text — each event within `ttl` of
/// the one before, the text not yet tracked, and nothing else intervening —
/// the text is spoken exactly once, and only with the very event that brings
/// the `threshold`-th distinct contributor.
pub proof fn lemma_threshold_burst(
    m: Map<Seq<char>, Record>,
    events: Seq<Event>,
    threshold: usize,
    ttl: u64,
    clock: u64,
    key: Seq<char>,
)
    requires
        map_wf(m, threshold, clock),
        !m.contains_key(key),
        threshold >= 1,
        events.len() == threshold,
        forall|i: int| 0 <= i < events.len() ==> (#[trigger] events[i]).key == key,
        forall|i: int, j: int|
            0 <= i < j < events.len() ==> events[i].author != events[j].author,
        forall|i: int| 0 <= i < events.len() ==> clock <= (#[trigger] events[i]).at,
        forall|i: int, j: int| 0 <= i < j < events.len() ==> events[i].at <= events[j].at,
        forall|i: int|
            0 < i < events.len() ==> (#[trigger] events[i]).at - events[i - 1].at < ttl,
    ensures
        run_fire_count(m, events, threshold, ttl, key) == 1,
        run_fire_count(m, events.take(events.len() - 1), threshold, ttl, key) == 0,
{
    lemma_burst_completes(m, events, threshold, ttl, clock, key, 0);
}

/// Determinism: the step relation is a function of the prior state and the
/// event alone, so replaying the same ordered events with the same
/// timestamps from the same state yields the same actions and states.
pub proof fn lemma_deterministic(
    m: Map<Seq<char>, Record>,
    n: Map<Seq<char>, Record>,
    key: Seq<char>,
    author: Seq<char>,
    now: u64,
    threshold: usize,
    ttl: u64,
)
    requires
        m == n,
    ensures
        step_map(m, key, author, now, threshold, ttl) == step_map(
            n,
            key,
            author,
            now,
            threshold,
            ttl,
        ),
        step_fires(m, key, author, now, threshold, ttl) == step_fires(
            n,
            key,
            author,
            now,
            threshold,
            ttl,
        ),
{
}

} // verus!
