use vstd::prelude::*;
use crate::text::{lower_of, lowercase};

verus! {

/// What the engine knows of one tracked text: the distinct contributors
/// (each as the character sequence of an author identifier) and the time
/// the entry was created or last gained a contributor.
pub ghost struct Record {
    pub authors: Set<Seq<char>>,
    pub stamp: u64,
}

/// An entry touched at `stamp` is still live at `now` under idle limit `ttl`.
pub open spec fn live(r: Record, now: u64, ttl: u64) -> bool {
    now - r.stamp < ttl
}

/// Silent eviction: every entry idle for `ttl` or longer is dropped.
pub open spec fn evict_expired(m: Map<Seq<char>, Record>, now: u64, ttl: u64) -> Map<
    Seq<char>,
    Record,
> {
    Map::new(|k: Seq<char>| m.contains_key(k) && live(m[k], now, ttl), |k: Seq<char>| m[k])
}

/// The record for `key` after one event by `author` at `now`: a fresh record
/// on a new text; a new contributor added, refreshing the stamp; or, when the
/// author already contributed, the record exactly as it was.
pub open spec fn touched(
    m: Map<Seq<char>, Record>,
    key: Seq<char>,
    author: Seq<char>,
    now: u64,
) -> Record {
    if m.contains_key(key) {
        if m[key].authors.contains(author) {
            m[key]
        } else {
            Record { authors: m[key].authors.insert(author), stamp: now }
        }
    } else {
        Record { authors: Set::empty().insert(author), stamp: now }
    }
}

/// Whether the event `(author, key)` at `now` makes its entry popular enough
/// to speak: after eviction and the update, the entry holds at least
/// `threshold` distinct contributors.
pub open spec fn step_fires(
    m: Map<Seq<char>, Record>,
    key: Seq<char>,
    author: Seq<char>,
    now: u64,
    threshold: usize,
    ttl: u64,
) -> bool {
    touched(evict_expired(m, now, ttl), key, author, now).authors.len() >= threshold
}

/// The tracked state after one ingested event: expired entries are dropped,
/// the event's entry is created or updated, and it is removed again the
/// moment it reaches the threshold, so that it can never fire twice.
pub open spec fn step_map(
    m: Map<Seq<char>, Record>,
    key: Seq<char>,
    author: Seq<char>,
    now: u64,
    threshold: usize,
    ttl: u64,
) -> Map<Seq<char>, Record> {
    let m1 = evict_expired(m, now, ttl);
    let r = touched(m1, key, author, now);
    if r.authors.len() >= threshold {
        m1.remove(key)
    } else {
        m1.insert(key, r)
    }
}

/// A request emitted towards the downstream sink.
#[derive(Debug, PartialEq, Eq)]
pub enum Action {
    Speak(String),
}

impl Action {
    /// The text this action asks the sink to vocalize.
    pub open spec fn spoken(self) -> Seq<char> {
        match self {
            Action::Speak(t) => t@,
        }
    }

    /// The text this action asks the sink to vocalize.
    pub fn text(&self) -> (t: &str)
        ensures
            t@ == self.spoken(),
    {
        match self {
            Action::Speak(t) => t.as_str(),
        }
    }
}

/// One tracked message: the users who said it and the time it was created
/// or last gained a contributor.
pub struct MessageData {
    pub users: Vec<String>,
    pub modified: u64,
}

impl MessageData {
    /// The contributor set this data represents.
    pub open spec fn authors(&self) -> Set<Seq<char>> {
        self.users@.map_values(|u: String| u@).to_set()
    }

    /// The users are distinct (as texts) and there is at least one:
    /// an entry never exists without a contributor.
    pub open spec fn wf(&self) -> bool {
        &&& self.users@.map_values(|u: String| u@).no_duplicates()
        &&& self.users@.len() >= 1
    }

    pub open spec fn record(&self) -> Record {
        Record { authors: self.authors(), stamp: self.modified }
    }

    /// A fresh entry: a single contributor, touched at `now`.
    pub fn new(user: String, now: u64) -> (r: MessageData)
        ensures
            r.wf(),
            r.record() == (Record { authors: Set::empty().insert(user@), stamp: now }),
            r.users@.len() == 1,
    {
        let ghost u = user@;
        let users = vec![user];
        proof {
            broadcast use vstd::set::group_set_axioms;

            assert(users@.map_values(|x: String| x@) =~= seq![u]);
            assert(seq![u][0] == u);
            assert(seq![u].contains(u));
            assert(seq![u].to_set() =~= Set::empty().insert(u));
        }
        MessageData { users, modified: now }
    }
}

/// There is an entry for key `k` among the slots.
pub open spec fn slots_has(s: Seq<(String, MessageData)>, k: Seq<char>) -> bool {
    exists|i: int| 0 <= i < s.len() && s[i].0@ == k
}

/// The index of the slot keyed by `k`.
pub open spec fn slot_at(s: Seq<(String, MessageData)>, k: Seq<char>) -> int {
    choose|i: int| 0 <= i < s.len() && s[i].0@ == k
}

/// At most one slot per normalized text.
pub open spec fn distinct_keys(s: Seq<(String, MessageData)>) -> bool {
    forall|i: int, j: int| 0 <= i < j < s.len() ==> s[i].0@ != s[j].0@
}

/// The mathematical content of a slot sequence: normalized text to record.
pub open spec fn map_of(s: Seq<(String, MessageData)>) -> Map<Seq<char>, Record> {
    Map::new(|k: Seq<char>| slots_has(s, k), |k: Seq<char>| s[slot_at(s, k)].1.record())
}

/// With distinct keys, any slot holding key `k` is the one `map_of` reads.
pub proof fn lemma_map_of_at(s: Seq<(String, MessageData)>, k: Seq<char>, i: int)
    requires
        distinct_keys(s),
        0 <= i < s.len(),
        s[i].0@ == k,
    ensures
        map_of(s).contains_key(k),
        map_of(s)[k] == s[i].1.record(),
{
    assert(slots_has(s, k));
    let c = slot_at(s, k);
    assert(0 <= c < s.len() && s[c].0@ == k);
    if c < i {
        assert(s[c].0@ != s[i].0@);
    } else if i < c {
        assert(s[i].0@ != s[c].0@);
    }
}

/// Removing a slot removes exactly its key from the mathematical content.
pub proof fn lemma_map_of_remove(s: Seq<(String, MessageData)>, p: int)
    requires
        distinct_keys(s),
        0 <= p < s.len(),
    ensures
        distinct_keys(s.remove(p)),
        map_of(s.remove(p)) == map_of(s).remove(s[p].0@),
{
    let t = s.remove(p);
    s.remove_ensures(p);
    assert forall|i: int, j: int| 0 <= i < j < t.len() implies t[i].0@ != t[j].0@ by {
        let si: int = if i < p { i } else { i + 1 };
        let sj: int = if j < p { j } else { j + 1 };
        assert(t[i] == s[si]);
        assert(t[j] == s[sj]);
    }
    assert forall|k: Seq<char>| map_of(t).contains_key(k) implies map_of(s).remove(
        s[p].0@,
    ).contains_key(k) && map_of(t)[k] == map_of(s).remove(s[p].0@)[k] by {
        let a = choose|a: int| 0 <= a < t.len() && t[a].0@ == k;
        let sa: int = if a < p { a } else { a + 1 };
        assert(t[a] == s[sa]);
        lemma_map_of_at(t, k, a);
        lemma_map_of_at(s, k, sa);
        if sa < p {
            assert(s[sa].0@ != s[p].0@);
        } else {
            assert(s[p].0@ != s[sa].0@);
        }
    }
    assert forall|k: Seq<char>| map_of(s).remove(s[p].0@).contains_key(k) implies map_of(
        t,
    ).contains_key(k) by {
        let i = choose|i: int| 0 <= i < s.len() && s[i].0@ == k;
        if i < p {
            assert(t[i] == s[i]);
            assert(slots_has(t, k));
        } else if i == p {
            assert(s[p].0@ == k);
        } else {
            assert(t[i - 1] == s[i]);
            assert(slots_has(t, k));
        }
    }
    assert(map_of(t) =~= map_of(s).remove(s[p].0@));
}

/// Appending a slot with a new key inserts exactly that key.
pub proof fn lemma_map_of_push(s: Seq<(String, MessageData)>, slot: (String, MessageData))
    requires
        distinct_keys(s),
        !slots_has(s, slot.0@),
    ensures
        distinct_keys(s.push(slot)),
        map_of(s.push(slot)) == map_of(s).insert(slot.0@, slot.1.record()),
{
    let t = s.push(slot);
    assert forall|i: int, j: int| 0 <= i < j < t.len() implies t[i].0@ != t[j].0@ by {
        if j < s.len() {
            assert(t[i] == s[i]);
            assert(t[j] == s[j]);
        } else {
            assert(t[i] == s[i]);
            assert(t[j] == slot);
        }
    }
    assert forall|k: Seq<char>| map_of(t).contains_key(k) implies map_of(s).insert(
        slot.0@,
        slot.1.record(),
    ).contains_key(k) && map_of(t)[k] == map_of(s).insert(slot.0@, slot.1.record())[k] by {
        let a = choose|a: int| 0 <= a < t.len() && t[a].0@ == k;
        lemma_map_of_at(t, k, a);
        if a < s.len() {
            assert(t[a] == s[a]);
            lemma_map_of_at(s, k, a);
            assert(k != slot.0@);
        } else {
            assert(t[a] == slot);
        }
    }
    assert forall|k: Seq<char>| map_of(s).insert(slot.0@, slot.1.record()).contains_key(
        k,
    ) implies map_of(t).contains_key(k) by {
        if k == slot.0@ {
            assert(t[s.len() as int] == slot);
            assert(slots_has(t, k));
        } else {
            let i = choose|i: int| 0 <= i < s.len() && s[i].0@ == k;
            assert(t[i] == s[i]);
            assert(slots_has(t, k));
        }
    }
    assert(map_of(t) =~= map_of(s).insert(slot.0@, slot.1.record()));
}

/// `author` stands among `users`, compared as text.
pub open spec fn has_author(users: Seq<String>, a: Seq<char>) -> bool {
    exists|i: int| 0 <= i < users.len() && users[i]@ == a
}

/// Membership in the contributor set is membership among the users.
pub proof fn lemma_authors_membership(d: &MessageData, a: Seq<char>)
    ensures
        d.authors().contains(a) <==> has_author(d.users@, a),
{
    broadcast use vstd::set::group_set_axioms;

    let mapped = d.users@.map_values(|u: String| u@);
    if has_author(d.users@, a) {
        let i = choose|i: int| 0 <= i < d.users@.len() && d.users@[i]@ == a;
        assert(mapped[i] == a);
        assert(mapped.contains(a));
    }
    if mapped.contains(a) {
        let i = choose|i: int| 0 <= i < mapped.len() && mapped[i] == a;
        assert(d.users@[i]@ == a);
    }
}

/// Distinct users means the contributor set counts them exactly.
pub proof fn lemma_authors_card(d: &MessageData)
    requires
        d.users@.map_values(|u: String| u@).no_duplicates(),
    ensures
        d.authors().finite(),
        d.authors().len() == d.users@.len(),
{
    broadcast use vstd::seq_lib::group_seq_lib_default;

    d.users@.map_values(|u: String| u@).unique_seq_to_set();
}

/// The misconfigurations rejected at construction.
#[derive(Debug, Clone, Copy, PartialEq, Eq)]
pub enum ConfigError {
    ZeroThreshold,
    ZeroTtl,
}

impl ConfigError {
    /// A short description of the misconfiguration.
    pub fn describe(&self) -> (r: &'static str)
    {
        match self {
            ConfigError::ZeroThreshold => "threshold must be at least 1",
            ConfigError::ZeroTtl => "ttl must be at least 1 second",
        }
    }
}

/// The aggregation engine: tracks, per normalized text, who has said it and
/// when it last changed; decides which texts to speak and which to forget.
pub struct Aggregator {
    threshold: usize,
    ttl: u64,
    clock: u64,
    entries: Vec<(String, MessageData)>,
}

impl View for Aggregator {
    type V = Map<Seq<char>, Record>;

    closed spec fn view(&self) -> Map<Seq<char>, Record> {
        map_of(self.entries@)
    }
}

impl Aggregator {
    /// Contributors required before a text is spoken.
    pub closed spec fn spec_threshold(&self) -> usize {
        self.threshold
    }

    /// Idle seconds before an entry is silently dropped.
    pub closed spec fn spec_ttl(&self) -> u64 {
        self.ttl
    }

    /// The timestamp of the most recently ingested event.
    pub closed spec fn spec_clock(&self) -> u64 {
        self.clock
    }

    /// The engine's internal consistency: valid configuration, one slot per
    /// normalized text, well-formed slots no entry of which has yet reached
    /// the threshold, and no slot newer than the last event seen.
    pub closed spec fn wf(&self) -> bool {
        &&& self.threshold >= 1
        &&& self.ttl >= 1
        &&& distinct_keys(self.entries@)
        &&& forall|i: int|
            0 <= i < self.entries@.len() ==> (#[trigger] self.entries@[i]).1.wf()
        &&& forall|i: int|
            0 <= i < self.entries@.len() ==> (#[trigger] self.entries@[i]).1.modified
                <= self.clock
        &&& forall|i: int|
            0 <= i < self.entries@.len() ==> (#[trigger] self.entries@[i]).1.users@.len()
                < self.threshold
    }

    /// Builds an engine with no tracked texts. Degenerate settings are
    /// rejected before any event is processed: a threshold of zero would
    /// speak every text at once, a ttl of zero would forget everything.
    pub fn new(threshold: usize, ttl_seconds: u64) -> (r: Result<Aggregator, ConfigError>)
        ensures
            threshold == 0 ==> r == Result::<Aggregator, ConfigError>::Err(
                ConfigError::ZeroThreshold,
            ),
            threshold >= 1 && ttl_seconds == 0 ==> r == Result::<Aggregator, ConfigError>::Err(
                ConfigError::ZeroTtl,
            ),
            threshold >= 1 && ttl_seconds >= 1 ==> (r matches Ok(a) && a.wf() && a@ == Map::<
                Seq<char>,
                Record,
            >::empty() && a.spec_threshold() == threshold && a.spec_ttl() == ttl_seconds
                && a.spec_clock() == 0),
    {
        if threshold == 0 {
            Err(ConfigError::ZeroThreshold)
        } else if ttl_seconds == 0 {
            Err(ConfigError::ZeroTtl)
        } else {
            let a = Aggregator { threshold, ttl: ttl_seconds, clock: 0, entries: Vec::new() };
            proof {
                assert(a@ =~= Map::<Seq<char>, Record>::empty());
            }
            Ok(a)
        }
    }

    /// Contributors required before a text is spoken.
    pub fn threshold(&self) -> (r: usize)
        ensures
            r == self.spec_threshold(),
    {
        self.threshold
    }

    /// Idle seconds before an entry is silently dropped.
    pub fn ttl_seconds(&self) -> (r: u64)
        ensures
            r == self.spec_ttl(),
    {
        self.ttl
    }

    /// The timestamp of the most recently ingested event.
    pub fn clock(&self) -> (r: u64)
        ensures
            r == self.spec_clock(),
    {
        self.clock
    }

    /// Ingest one event: `author` said `raw` at time `now` (seconds on any
    /// monotone clock). The text is case-folded; entries idle for `ttl` or
    /// longer are silently dropped before the event is applied; then the
    /// entry for the folded text is created, or gains `author` as a new
    /// contributor, or is left untouched when `author` already contributed.
    /// The moment the entry holds `threshold` distinct contributors it is
    /// spoken and removed, so no text fires twice without being rebuilt from
    /// scratch. Because every scan runs on every event, at most one entry can
    /// ever newly reach the threshold, so at most one action comes back, and
    /// the returned list is trivially in ascending key order.
    pub fn ingest(&mut self, author: String, raw: &str, now: u64) -> (actions: Vec<Action>)
        requires
            old(self).wf(),
            now >= old(self).spec_clock(),
        ensures
            final(self).wf(),
            final(self).spec_threshold() == old(self).spec_threshold(),
            final(self).spec_ttl() == old(self).spec_ttl(),
            final(self).spec_clock() == now,
            final(self)@ == step_map(
                old(self)@,
                lower_of(raw@),
                author@,
                now,
                old(self).spec_threshold(),
                old(self).spec_ttl(),
            ),
            actions@.len() == (if step_fires(
                old(self)@,
                lower_of(raw@),
                author@,
                now,
                old(self).spec_threshold(),
                old(self).spec_ttl(),
            ) {
                1int
            } else {
                0int
            }),
            actions@.len() == 1 ==> actions@[0].spoken() == lower_of(raw@),
    {
        broadcast use vstd::set::group_set_axioms;

        let ghost m0 = self@;
        let ghost s0 = self.entries@;
        let ghost th: usize = self.threshold;
        let ghost m1 = evict_expired(m0, now, self.ttl);

        let key = lowercase(raw);
        let threshold = self.threshold;
        let ttl = self.ttl;
        self.clock = now;

        // Maintenance pass: drop every entry idle for `ttl` or longer.
        let mut remaining: Vec<(String, MessageData)> = Vec::new();
        core::mem::swap(&mut remaining, &mut self.entries);
        let mut kept: Vec<(String, MessageData)> = Vec::new();
        proof {
            assert(remaining@ =~= s0.subrange(0, remaining@.len() as int));
        }
        while remaining.len() != 0
            invariant
                remaining@.len() <= s0.len(),
                remaining@ == s0.subrange(0, remaining@.len() as int),
                distinct_keys(s0),
                forall|i: int| 0 <= i < s0.len() ==> (#[trigger] s0[i]).1.wf(),
                forall|i: int| 0 <= i < s0.len() ==> (#[trigger] s0[i]).1.modified <= now,
                forall|i: int| 0 <= i < s0.len() ==> (#[trigger] s0[i]).1.users@.len() < th,
                forall|a: int|
                    0 <= a < kept@.len() ==> live((#[trigger] kept@[a]).1.record(), now, ttl),
                forall|a: int|
                    0 <= a < kept@.len() ==> exists|i: int|
                        remaining@.len() <= i < s0.len() && s0[i] == #[trigger] kept@[a],
                forall|i: int|
                    remaining@.len() <= i < s0.len() && live(
                        (#[trigger] s0[i]).1.record(),
                        now,
                        ttl,
                    ) ==> kept@.contains(s0[i]),
                distinct_keys(kept@),
            decreases remaining@.len(),
        {
            let ghost r_before: int = remaining@.len() as int;
            let slot = remaining.pop().unwrap();
            proof {
                assert(slot == s0[r_before - 1]);
                assert(remaining@ =~= s0.subrange(0, remaining@.len() as int));
            }
            if now - slot.1.modified < ttl {
                proof {
                    assert forall|a: int| 0 <= a < kept@.len() implies kept@[a].0@ != slot.0@ by {
                        let i = choose|i: int|
                            r_before <= i < s0.len() && s0[i] == kept@[a];
                        assert(s0[r_before - 1].0@ != s0[i].0@);
                    }
                }
                let ghost kprev = kept@;
                kept.push(slot);
                proof {
                    assert(kept@[kept@.len() - 1] == s0[r_before - 1]);
                    assert forall|i: int|
                        remaining@.len() <= i < s0.len() && live(
                            (#[trigger] s0[i]).1.record(),
                            now,
                            ttl,
                        ) implies kept@.contains(s0[i]) by {
                        if i == r_before - 1 {
                            assert(kept@[kept@.len() - 1] == s0[i]);
                        } else {
                            assert(kprev.contains(s0[i]));
                            let a = choose|a: int| #![auto] 0 <= a < kprev.len() && kprev[a] == s0[i];
                            assert(kept@[a] == s0[i]);
                        }
                    }
                }
            } else {
                proof {
                    assert(!live(s0[r_before - 1].1.record(), now, ttl));
                }
            }
        }

        // The survivors carry exactly the still-live entries.
        proof {
            assert forall|k: Seq<char>| map_of(kept@).contains_key(k) implies m1.contains_key(k)
                && map_of(kept@)[k] == m1[k] by {
                let a = choose|a: int| 0 <= a < kept@.len() && kept@[a].0@ == k;
                let i = choose|i: int| 0 <= i < s0.len() && s0[i] == kept@[a];
                lemma_map_of_at(kept@, k, a);
                lemma_map_of_at(s0, k, i);
            }
            assert forall|k: Seq<char>| m1.contains_key(k) implies map_of(kept@).contains_key(
                k,
            ) by {
                let i = choose|i: int| 0 <= i < s0.len() && s0[i].0@ == k;
                lemma_map_of_at(s0, k, i);
                assert(kept@.contains(s0[i]));
                let a = choose|a: int| 0 <= a < kept@.len() && kept@[a] == s0[i];
                assert(slots_has(kept@, k));
            }
            assert(map_of(kept@) =~= m1);
            assert forall|a: int| 0 <= a < kept@.len() implies (#[trigger] kept@[a]).1.wf()
                && kept@[a].1.modified <= now && kept@[a].1.users@.len() < th by {
                let i = choose|i: int| 0 <= i < s0.len() && s0[i] == kept@[a];
                assert(s0[i].1.wf());
            }
        }

        // Find the entry for the folded text, if it survived.
        let n: usize = kept.len();
        let mut i: usize = 0;
        let mut pos: usize = 0;
        let mut found = false;
        while i < n
            invariant
                n == kept@.len(),
                i <= n,
                found ==> pos < n && kept@[pos as int].0@ == key@,
                !found ==> forall|a: int| 0 <= a < i ==> (#[trigger] kept@[a]).0@ != key@,
            decreases n - i,
        {
            if kept[i].0 == key {
                found = true;
                pos = i;
            }
            i += 1;
        }

        let ghost r_touch = touched(m1, key@, author@, now);
        let ghost fires = step_fires(m0, key@, author@, now, th, ttl);
        let mut actions: Vec<Action> = Vec::new();
        if found {
            proof {
                lemma_map_of_at(kept@, key@, pos as int);
            }
            let ghost kb = kept@;
            let mut slot = kept.remove(pos);
            proof {
                lemma_map_of_remove(kb, pos as int);
                assert(map_of(kept@) == m1.remove(key@));
                assert(!map_of(kept@).contains_key(key@));
                lemma_authors_membership(&slot.1, author@);
                kb.remove_ensures(pos as int);
                assert forall|x: int| 0 <= x < kept@.len() implies (#[trigger] kept@[x]).1.wf()
                    && kept@[x].1.modified <= now && kept@[x].1.users@.len() < th by {
                    if x < pos {
                        assert(kept@[x] == kb[x]);
                    } else {
                        assert(kept@[x] == kb[x + 1]);
                    }
                }
            }
            if !contains_user(&slot.1.users, &author) {
                let ghost ub = slot.1.users@;
                let ghost a_old = slot.1.authors();
                slot.1.users.push(author);
                slot.1.modified = now;
                proof {
                    let mapped_old = ub.map_values(|u: String| u@);
                    let mapped_new = slot.1.users@.map_values(|u: String| u@);
                    assert(mapped_new =~= mapped_old.push(author@));
                    assert forall|x: int, y: int| 0 <= x < y < mapped_new.len() implies
                        mapped_new[x] != mapped_new[y] by {
                        if y < mapped_old.len() {
                            assert(mapped_new[x] == mapped_old[x]);
                            assert(mapped_new[y] == mapped_old[y]);
                        } else {
                            assert(mapped_new[y] == author@);
                            assert(mapped_new[x] == mapped_old[x]);
                            assert(mapped_old[x] != author@);
                        }
                    }
                    assert(slot.1.users@.map_values(|u: String| u@).no_duplicates());
                    assert forall|x: Seq<char>| slot.1.authors().contains(x) <==> a_old.insert(
                        author@,
                    ).contains(x) by {
                        if slot.1.authors().contains(x) {
                            let j = choose|j: int|
                                0 <= j < mapped_new.len() && mapped_new[j] == x;
                            if j < mapped_old.len() {
                                assert(mapped_old.contains(x));
                            }
                        }
                        if a_old.contains(x) {
                            let j = choose|j: int|
                                0 <= j < mapped_old.len() && mapped_old[j] == x;
                            assert(mapped_new[j] == x);
                        }
                        if x == author@ {
                            assert(mapped_new[mapped_new.len() - 1] == x);
                        }
                    }
                    assert(slot.1.authors() =~= a_old.insert(author@));
                    assert(slot.1.record() == r_touch);
                }
            } else {
                proof {
                    assert(slot.1.record() == r_touch);
                }
            }
            proof {
                lemma_authors_card(&slot.1);
                assert(slot.1.users@.len() == r_touch.authors.len());
            }
            if slot.1.users.len() >= threshold {
                proof {
                    assert(fires);
                }
                actions.push(Action::Speak(slot.0));
                proof {
                    assert(map_of(kept@) =~= step_map(m0, key@, author@, now, th, ttl));
                }
            } else {
                proof {
                    assert(!fires);
                    assert(slot.1.wf());
                    lemma_map_of_push(kept@, (slot.0, slot.1));
                }
                let ghost kb2 = kept@;
                kept.push(slot);
                proof {
                    assert(map_of(kept@) == map_of(kb2).insert(key@, r_touch));
                    assert(map_of(kept@) =~= m1.insert(key@, r_touch));
                    assert(map_of(kept@) =~= step_map(m0, key@, author@, now, th, ttl));
                    assert forall|x: int| 0 <= x < kept@.len() implies (#[trigger] kept@[x]).1.wf()
                        && kept@[x].1.modified <= now && kept@[x].1.users@.len() < th by {
                        if x < kept@.len() - 1 {
                            assert(kept@[x] == kb2[x]);
                        }
                    }
                }
            }
        } else {
            proof {
                assert(!slots_has(kept@, key@));
                assert(!m1.contains_key(key@));
                assert(r_touch.authors =~= Set::empty().insert(author@));
                assert(r_touch.authors.len() == 1);
            }
            if threshold <= 1 {
                proof {
                    assert(fires);
                }
                actions.push(Action::Speak(key));
                proof {
                    assert(map_of(kept@) =~= step_map(m0, key@, author@, now, th, ttl));
                }
            } else {
                let data = MessageData::new(author, now);
                proof {
                    assert(!fires);
                    lemma_map_of_push(kept@, (key, data));
                }
                let ghost kb2 = kept@;
                kept.push((key, data));
                proof {
                    assert(map_of(kept@) == map_of(kb2).insert(key@, r_touch));
                    assert(map_of(kept@) =~= step_map(m0, key@, author@, now, th, ttl));
                    assert forall|x: int| 0 <= x < kept@.len() implies (#[trigger] kept@[x]).1.wf()
                        && kept@[x].1.modified <= now && kept@[x].1.users@.len() < th by {
                        if x < kept@.len() - 1 {
                            assert(kept@[x] == kb2[x]);
                        }
                    }
                }
            }
        }
        self.entries = kept;
        actions
    }

    /// How many texts are currently tracked.
    pub fn tracked_count(&self) -> (r: usize)
        requires
            self.wf(),
        ensures
            r == self@.dom().len(),
    {
        proof {
            lemma_map_of_dom_card(self.entries@);
        }
        self.entries.len()
    }

    /// How many distinct contributors the entry for `text` (case-folded)
    /// currently holds, or `None` when no such text is tracked.
    pub fn contributor_count(&self, text: &str) -> (r: Option<usize>)
        requires
            self.wf(),
        ensures
            self@.contains_key(lower_of(text@)) ==> (r matches Some(c) && c == self@[lower_of(
                text@,
            )].authors.len()),
            !self@.contains_key(lower_of(text@)) ==> r is None,
    {
        let key = lowercase(text);
        let n: usize = self.entries.len();
        let mut i: usize = 0;
        while i < n
            invariant
                self.wf(),
                key@ == lower_of(text@),
                n == self.entries@.len(),
                i <= n,
                forall|a: int| 0 <= a < i ==> (#[trigger] self.entries@[a]).0@ != key@,
            decreases n - i,
        {
            if self.entries[i].0 == key {
                proof {
                    lemma_map_of_at(self.entries@, key@, i as int);
                    lemma_authors_card(&self.entries@[i as int].1);
                }
                return Some(self.entries[i].1.users.len());
            }
            i += 1;
        }
        proof {
            assert(!slots_has(self.entries@, key@));
        }
        None
    }
}

/// With one slot per key, the tracked texts are counted by the slots.
pub proof fn lemma_map_of_dom_card(s: Seq<(String, MessageData)>)
    requires
        distinct_keys(s),
    ensures
        map_of(s).dom().finite(),
        map_of(s).dom().len() == s.len(),
{
    broadcast use vstd::set::group_set_axioms;
    broadcast use vstd::seq_lib::group_seq_lib_default;

    let keys = s.map_values(|slot: (String, MessageData)| slot.0@);
    assert forall|i: int, j: int|
        0 <= i < keys.len() && 0 <= j < keys.len() && i != j implies keys[i] != keys[j] by {
        if i < j {
            assert(s[i].0@ != s[j].0@);
        } else {
            assert(s[j].0@ != s[i].0@);
        }
    }
    keys.unique_seq_to_set();
    assert forall|k: Seq<char>| map_of(s).dom().contains(k) implies keys.to_set().contains(
        k,
    ) by {
        let i = choose|i: int| 0 <= i < s.len() && s[i].0@ == k;
        assert(keys[i] == k);
        assert(keys.contains(k));
    }
    assert forall|k: Seq<char>| keys.to_set().contains(k) implies map_of(s).dom().contains(
        k,
    ) by {
        let i = choose|i: int| 0 <= i < keys.len() && keys[i] == k;
        assert(s[i].0@ == k);
        assert(slots_has(s, k));
    }
    assert(map_of(s).dom() =~= keys.to_set());
}

/// Entry-wise consistency of a tracked state: every entry has at least one
/// contributor, stands strictly under the threshold, and is no newer than the
/// time of the last event seen.
pub open spec fn map_wf(m: Map<Seq<char>, Record>, threshold: usize, clock: u64) -> bool {
    forall|k: Seq<char>|
        m.contains_key(k) ==> ((#[trigger] m[k]).authors.finite() && m[k].authors.len() >= 1
            && m[k].authors.len() < threshold && m[k].stamp <= clock)
}

/// A well-formed engine presents an entry-wise consistent tracked state.
pub proof fn lemma_wf_view(a: &Aggregator)
    requires
        a.wf(),
    ensures
        map_wf(a@, a.spec_threshold(), a.spec_clock()),
{
    assert forall|k: Seq<char>| a@.contains_key(k) implies ((#[trigger] a@[k]).authors.finite()
        && a@[k].authors.len() >= 1 && a@[k].authors.len() < a.spec_threshold()
        && a@[k].stamp <= a.spec_clock()) by {
        let s = a.entries@;
        let i = choose|i: int| 0 <= i < s.len() && s[i].0@ == k;
        lemma_map_of_at(s, k, i);
        lemma_authors_card(&s[i].1);
    }
}

/// Whether `user` already stands among `users`, compared as text.
fn contains_user(users: &Vec<String>, user: &String) -> (b: bool)
    ensures
        b == has_author(users@, user@),
{
    let n: usize = users.len();
    let mut i: usize = 0;
    while i < n
        invariant
            n == users@.len(),
            i <= n,
            forall|a: int| 0 <= a < i ==> (#[trigger] users@[a])@ != user@,
        decreases n - i,
    {
        if users[i] == *user {
            proof {
                assert(users@[i as int]@ == user@);
            }
            return true;
        }
        i += 1;
    }
    false
}

} // verus!
