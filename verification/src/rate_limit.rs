//! Per-client rate limiting over a sliding window.
//!
//! A client is admitted while fewer than the permitted number of its admitted
//! requests lie within the window that ends now. For each client the limiter keeps
//! the moments of those requests. Where no requests are permitted at all, it keeps
//! the moment of the client's first refused request, from which the wait counts.
use crate::clock;
use crate::clock::{
    delta_from_std, delta_minus, delta_to_std, describe_span, moment_diff, moment_minus, system_now,
    Delta, Span, SystemClock, Timestamp, MAX_SECS, MIN_SECS, NANOS_PER_SEC,
};
use crate::text;
use dashmap::DashMap;
use vstd::prelude::*;

verus! {

/// Tunable rate limiting parameters.
#[derive(Debug, Clone, Copy)]
pub struct RateLimitSettings {
    /// Maximum number of requests permitted during a single window.
    pub max_requests: u32,
    /// Duration of the rolling window applied per client.
    pub window: Span,
    /// Maximum number of distinct client entries retained simultaneously.
    pub max_entries: usize,
}

/// Errors emitted when a client exceeds configured limits.
#[derive(Debug, Clone, Copy, PartialEq, Eq)]
pub enum RateLimitError {
    /// The client used up its window; `retry_in` is the time until there is room again.
    LimitExceeded { retry_in: Span },
}

impl RateLimitError {
    /// Description of the error for the log.
    pub fn message(&self) -> (r: String)
        requires
            self->retry_in.wf(),
        ensures
            r@ == "too many requests; retry in "@ + clock::span_text(
                self->retry_in.secs,
                self->retry_in.nanos,
            ),
    {
        match self {
            RateLimitError::LimitExceeded { retry_in } => text::joined(
                "too many requests; retry in ",
                describe_span(*retry_in).as_str(),
            ),
        }
    }
}

/// The address that a client connects from.
#[derive(Debug, Clone, Copy, PartialEq, Eq, Structural)]
pub enum ClientAddr {
    V4(u32),
    V6(u128),
}

/// Key under which a client is filed: whether the address is an IPv6 one, and its bits.
pub type ClientKey = (bool, u128);

impl ClientAddr {
    /// The key of this address. Different addresses have different keys.
    pub open spec fn spec_key(self) -> ClientKey {
        match self {
            ClientAddr::V4(bits) => (false, bits as u128),
            ClientAddr::V6(bits) => (true, bits),
        }
    }

    /// The key under which the limiter files this address.
    pub fn key(self) -> (r: ClientKey)
        ensures
            r == self.spec_key(),
    {
        match self {
            ClientAddr::V4(bits) => (false, bits as u128),
            ClientAddr::V6(bits) => (true, bits),
        }
    }
}

/// The concurrent map that holds the entries.
#[verifier::external_type_specification]
#[verifier::external_body]
#[verifier::reject_recursive_types(K)]
#[verifier::reject_recursive_types(V)]
#[verifier::reject_recursive_types(S)]
pub struct ExDashMap<K, V, S>(DashMap<K, V, S>);

/// The moments that count for each client, by client key.
pub type Entries = Map<ClientKey, Seq<Timestamp>>;

/// The moments that a map holds for each client.
pub uninterp spec fn entries_of(map: DashMap<ClientKey, Vec<Timestamp>>) -> Map<
    ClientKey,
    Seq<Timestamp>,
>;

/// Whether every moment lies on the calendar.
pub open spec fn all_wf(moments: Seq<Timestamp>) -> bool {
    forall|i: int| 0 <= i < moments.len() ==> (#[trigger] moments[i]).wf()
}

/// Every entry's moments lie on the calendar.
pub open spec fn dated(entries: Entries) -> bool {
    forall|k: ClientKey| #[trigger] entries.contains_key(k) ==> all_wf(entries[k])
}

/// The moments no earlier than `cutoff`.
pub open spec fn since(moments: Seq<Timestamp>, cutoff: int) -> Seq<Timestamp> {
    moments.filter(|t: Timestamp| t.total() >= cutoff)
}

/// The moments that lie within the window that ends at `now`.
pub open spec fn recent(moments: Seq<Timestamp>, now: int, window: int) -> Seq<Timestamp> {
    moments.filter(|t: Timestamp| now - t.total() < window)
}

/// The earliest of some moments, in nanoseconds.
pub open spec fn earliest(moments: Seq<Timestamp>) -> int
    decreases moments.len(),
{
    if moments.len() == 0 {
        0
    } else if moments.len() == 1 {
        moments[0].total()
    } else {
        let before = earliest(moments.drop_last());
        if moments.last().total() < before {
            moments.last().total()
        } else {
            before
        }
    }
}

/// The entries without the moments before `cutoff`; a client without any other
/// moment has no entry.
pub open spec fn fresh_entries(entries: Entries, cutoff: int) -> Entries {
    Map::new(
        |k: ClientKey| entries.contains_key(k) && since(entries[k], cutoff).len() > 0,
        |k: ClientKey| since(entries[k], cutoff),
    )
}

/// The moments under `key`, if there are any.
pub open spec fn moments_at(entries: Entries, key: ClientKey) -> Seq<Timestamp> {
    if entries.contains_key(key) {
        entries[key]
    } else {
        seq![]
    }
}

/// Whether `start` is the earliest of some moments, and nothing where there are none.
pub open spec fn begins(start: Option<Timestamp>, moments: Seq<Timestamp>) -> bool {
    match start {
        Some(t) => moments.len() > 0 && t.wf() && t.total() == earliest(moments),
        None => moments.len() == 0,
    }
}

/// `items` holds each client once, in some order, with its earliest moment, and
/// nothing else.
pub open spec fn lists(items: Seq<(ClientKey, Option<Timestamp>)>, entries: Entries) -> bool {
    &&& forall|i: int|
        0 <= i < items.len() ==> entries.contains_key((#[trigger] items[i]).0) && begins(
            items[i].1,
            entries[items[i].0],
        )
    &&& forall|i: int, j: int|
        0 <= i < j < items.len() ==> (#[trigger] items[i]).0 != (#[trigger] items[j]).0
    &&& forall|k: ClientKey| #[trigger]
        entries.contains_key(k) ==> exists|i: int| 0 <= i < items.len() && (#[trigger] items[i]).0 == k
}

/// Drop the moments before `cutoff`, and tell whether any are left.
fn drop_stale(moments: &mut Vec<Timestamp>, cutoff: Timestamp) -> (r: bool)
    requires
        all_wf(old(moments)@),
        cutoff.wf(),
    ensures
        final(moments)@ == since(old(moments)@, cutoff.total()),
        r == (final(moments)@.len() > 0),
{
    let ghost all = moments@;
    let mut kept: Vec<Timestamp> = Vec::new();
    let mut at: usize = 0;
    proof {
        reveal(Seq::filter);
        assert(all.take(0) =~= Seq::<Timestamp>::empty());
    }
    while at < moments.len()
        invariant
            at <= moments@.len(),
            moments@ == all,
            all_wf(all),
            cutoff.wf(),
            kept@ == since(all.take(at as int), cutoff.total()),
        decreases moments@.len() - at,
    {
        proof {
            reveal(Seq::filter);
            assert(all.take(at + 1).drop_last() =~= all.take(at as int));
            assert(all.take(at + 1).last() == all[at as int]);
        }
        if !moments[at].before(cutoff) {
            kept.push(moments[at]);
        }
        at += 1;
    }
    assert(all.take(at as int) =~= all);
    *moments = kept;
    moments.len() > 0
}

/// The moments that lie within the window that ends at `now`.
fn recent_of(moments: &Vec<Timestamp>, now: Timestamp, window: Delta) -> (r: Vec<Timestamp>)
    requires
        all_wf(moments@),
        now.wf(),
        window.wf(),
    ensures
        r@ == recent(moments@, now.total(), window.total()),
        all_wf(r@),
{
    let ghost all = moments@;
    let mut kept: Vec<Timestamp> = Vec::new();
    let mut at: usize = 0;
    proof {
        reveal(Seq::filter);
        assert(all.take(0) =~= Seq::<Timestamp>::empty());
    }
    while at < moments.len()
        invariant
            at <= moments@.len(),
            moments@ == all,
            all_wf(all),
            now.wf(),
            window.wf(),
            kept@ == recent(all.take(at as int), now.total(), window.total()),
            all_wf(kept@),
        decreases moments@.len() - at,
    {
        proof {
            reveal(Seq::filter);
            assert(all.take(at + 1).drop_last() =~= all.take(at as int));
            assert(all.take(at + 1).last() == all[at as int]);
        }
        if !moment_diff(now, moments[at]).at_least(window) {
            kept.push(moments[at]);
        }
        at += 1;
    }
    assert(all.take(at as int) =~= all);
    kept
}

/// The earliest of some moments.
fn earliest_of(moments: &Vec<Timestamp>) -> (r: Option<Timestamp>)
    requires
        all_wf(moments@),
    ensures
        begins(r, moments@),
        r matches Some(t) ==> moments@.contains(t),
{
    if moments.len() == 0 {
        return None;
    }
    let mut first = moments[0];
    let mut at: usize = 1;
    assert(moments@.take(1)[0] == first);
    while at < moments.len()
        invariant
            1 <= at <= moments@.len(),
            all_wf(moments@),
            first.wf(),
            moments@.contains(first),
            first.total() == earliest(moments@.take(at as int)),
        decreases moments@.len() - at,
    {
        proof {
            assert(moments@.take(at + 1).drop_last() =~= moments@.take(at as int));
            assert(moments@.take(at + 1).last() == moments@[at as int]);
        }
        if moments[at].before(first) {
            first = moments[at];
        }
        at += 1;
    }
    assert(moments@.take(at as int) =~= moments@);
    Some(first)
}

/// Trusted: `DashMap::new` makes an empty map.
#[verifier::external_body]
fn entries_new() -> (r: DashMap<ClientKey, Vec<Timestamp>>)
    ensures
        entries_of(r) == Entries::empty(),
{
    DashMap::new()
}

/// Trusted: `DashMap::len` counts the entries.
#[verifier::external_body]
fn entries_len(map: &DashMap<ClientKey, Vec<Timestamp>>) -> (r: usize)
    ensures
        r == entries_of(*map).len(),
{
    map.len()
}

/// Trusted: `DashMap::contains_key` tells whether a key has an entry.
#[verifier::external_body]
fn entries_contains(map: &DashMap<ClientKey, Vec<Timestamp>>, key: ClientKey) -> (r: bool)
    ensures
        r == entries_of(*map).contains_key(key),
{
    map.contains_key(&key)
}

/// Trusted: `DashMap::retain` hands each value to the predicate, which may change
/// it, and drops exactly the entries that the predicate rejects; here the stale
/// moments go, and with them the entries that held no others.
#[verifier::external_body]
fn entries_retain_fresh(map: &mut DashMap<ClientKey, Vec<Timestamp>>, cutoff: Timestamp)
    requires
        cutoff.wf(),
        dated(entries_of(*old(map))),
    ensures
        entries_of(*final(map)) == fresh_entries(entries_of(*old(map)), cutoff.total()),
{
    map.retain(|_, moments| drop_stale(moments, cutoff));
}

/// Trusted: `DashMap::entry` followed by `or_default` leaves an existing entry
/// alone, files an empty one where there is none, and gives the entry that then
/// stands.
#[verifier::external_body]
fn entries_get_or_default(map: &mut DashMap<ClientKey, Vec<Timestamp>>, key: ClientKey) -> (r: Vec<
    Timestamp,
>)
    ensures
        r@ == moments_at(entries_of(*old(map)), key),
        entries_of(*final(map)) == entries_of(*old(map)).insert(key, r@),
{
    map.entry(key).or_default().clone()
}

/// Trusted: `DashMap::insert` files `moments` under `key`, in place of what stood there.
#[verifier::external_body]
fn entries_insert(
    map: &mut DashMap<ClientKey, Vec<Timestamp>>,
    key: ClientKey,
    moments: Vec<Timestamp>,
)
    ensures
        entries_of(*final(map)) == entries_of(*old(map)).insert(key, moments@),
{
    map.insert(key, moments);
}

/// Trusted: `DashMap::remove` takes the entry under `key` out and keeps the others.
#[verifier::external_body]
fn entries_remove(map: &mut DashMap<ClientKey, Vec<Timestamp>>, key: ClientKey)
    ensures
        entries_of(*final(map)) == entries_of(*old(map)).remove(key),
{
    map.remove(&key);
}

/// Trusted: `DashMap::iter` visits each entry once; of each, the key and the
/// earliest moment are handed out. The order is the map's own and is left open.
#[verifier::external_body]
fn entries_starts(map: &DashMap<ClientKey, Vec<Timestamp>>) -> (r: Vec<
    (ClientKey, Option<Timestamp>),
>)
    requires
        dated(entries_of(*map)),
    ensures
        lists(r@, entries_of(*map)),
{
    map.iter().map(|item| (*item.key(), earliest_of(item.value()))).collect()
}

/// Whether item `i` may be chosen: it has a moment, and is not the excluded client.
pub open spec fn eligible(
    items: Seq<(ClientKey, Option<Timestamp>)>,
    i: int,
    excluded: Option<ClientKey>,
) -> bool {
    0 <= i < items.len() && items[i].1 is Some && excluded != Some(items[i].0)
}

/// Whether item `i` is the first one, among those that may be chosen, with the
/// earliest moment.
pub open spec fn first_oldest(
    items: Seq<(ClientKey, Option<Timestamp>)>,
    i: int,
    excluded: Option<ClientKey>,
) -> bool {
    &&& eligible(items, i, excluded)
    &&& forall|j: int| #[trigger]
        eligible(items, j, excluded) ==> {
            &&& (items[i].1->0).total() <= (items[j].1->0).total()
            &&& j < i ==> (items[i].1->0).total() < (items[j].1->0).total()
        }
}

/// The first client with the earliest moment, leaving `excluded` out.
pub fn oldest_of(items: &Vec<(ClientKey, Option<Timestamp>)>, excluded: Option<ClientKey>) -> (r:
    Option<ClientKey>)
    requires
        forall|i: int| 0 <= i < items@.len() ==> ((#[trigger] items@[i]).1 matches Some(t) ==> t.wf()),
    ensures
        r is None <==> forall|i: int| !#[trigger] eligible(items@, i, excluded),
        r matches Some(key) ==> exists|i: int| #[trigger]
            first_oldest(items@, i, excluded) && items@[i].0 == key,
{
    let mut selected: Option<(usize, Timestamp)> = None;
    let mut at: usize = 0;
    while at < items.len()
        invariant
            at <= items@.len(),
            forall|i: int|
                0 <= i < items@.len() ==> ((#[trigger] items@[i]).1 matches Some(t) ==> t.wf()),
            selected is None ==> forall|i: int| i < at ==> !#[trigger] eligible(items@, i, excluded),
            selected matches Some((s, start)) ==> first_oldest(
                items@.take(at as int),
                s as int,
                excluded,
            ) && items@[s as int].1 == Some(start),
        decreases items@.len() - at,
    {
        let key = items[at].0;
        let skip = match excluded {
            Some(target) => target.0 == key.0 && target.1 == key.1,
            None => false,
        };
        let ghost before = items@.take(at as int);
        let ghost after = items@.take(at + 1);
        assert(forall|i: int| 0 <= i < at ==> before[i] == after[i]);
        assert(forall|i: int|
            i != at ==> (#[trigger] eligible(before, i, excluded) == eligible(after, i, excluded)));
        assert(eligible(after, at as int, excluded) == (!skip && items@[at as int].1 is Some));
        let candidate = if skip {
            None
        } else {
            items[at].1
        };
        match candidate {
            Some(start) => {
                let replace = match selected {
                    Some((_, current)) => start.before(current),
                    None => true,
                };
                if replace {
                    proof {
                        if selected is None {
                            assert forall|j: int| #[trigger] eligible(after, j, excluded) implies j
                                == at by {
                                if j < at {
                                    assert(!eligible(items@, j, excluded));
                                }
                            }
                        } else {
                            assert forall|j: int| #[trigger] eligible(after, j, excluded) && j
                                < at implies start.total() < (after[j].1->0).total() by {
                                assert(eligible(before, j, excluded));
                            }
                        }
                        assert(first_oldest(after, at as int, excluded));
                    }
                    selected = Some((at, start));
                } else {
                    proof {
                        let s = (selected->0).0 as int;
                        assert(eligible(before, s, excluded));
                        assert forall|j: int| #[trigger] eligible(after, j, excluded) && j
                            < at implies eligible(before, j, excluded) by {}
                        assert(first_oldest(after, s, excluded));
                    }
                }
            },
            None => {
                proof {
                    if selected is Some {
                        let s = (selected->0).0 as int;
                        assert(eligible(before, s, excluded));
                        assert forall|j: int| #[trigger] eligible(after, j, excluded) implies eligible(
                            before,
                            j,
                            excluded,
                        ) by {}
                        assert(first_oldest(after, s, excluded));
                    }
                }
            },
        }
        at += 1;
    }
    assert(items@.take(items@.len() as int) == items@);
    match selected {
        Some((s, _)) => {
            assert(first_oldest(items@, s as int, excluded));
            Some(items[s].0)
        },
        None => None,
    }
}

/// `after` is what remains of `before` once no more than `max` entries may stay:
/// the clients with the earliest moments go first, and `protected` stays.
pub open spec fn capped(before: Entries, after: Entries, max: nat, protected: ClientKey) -> bool {
    &&& after.submap_of(before)
    &&& before.contains_key(protected) ==> after.contains_key(protected)
    &&& before.len() <= max ==> after == before
    &&& before.len() > max ==> after.len() == max
    &&& forall|gone: ClientKey, kept: ClientKey|
        before.contains_key(gone) && !#[trigger] after.contains_key(gone)
            && #[trigger] after.contains_key(kept) && kept != protected ==> earliest(before[gone])
            <= earliest(before[kept])
}

/// The client's moments that a request at `now` is held against.
pub open spec fn counted(
    window: int,
    before: Entries,
    now: Timestamp,
    key: ClientKey,
) -> Seq<Timestamp> {
    recent(moments_at(before, key), now.total(), window)
}

/// The moments on file once the request is handled: an admitted request is added to
/// those that it was held against, and so is a refused one where there are none.
pub open spec fn remembered(
    counted: Seq<Timestamp>,
    now: Timestamp,
    outcome: Result<(), RateLimitError>,
) -> Seq<Timestamp> {
    if outcome is Ok || counted.len() == 0 {
        counted.push(now)
    } else {
        counted
    }
}

/// The most moments that are on file for a client: one for each permitted request,
/// and one where none is permitted.
pub open spec fn most_on_file(max_requests: u32) -> int {
    if max_requests == 0 {
        1
    } else {
        max_requests as int
    }
}

/// One request: `before` and `after` are the entries around it, and `outcome` the
/// answer. It is admitted if and only if fewer than `max_requests` admitted requests
/// of the client lie within the window that ends now, and remembered if it is. A
/// refused client is told when the earliest moment on file leaves the window.
pub open spec fn request_step(
    settings: RateLimitSettings,
    window: int,
    before: Entries,
    now: Timestamp,
    key: ClientKey,
    outcome: Result<(), RateLimitError>,
    after: Entries,
) -> bool {
    let counted = counted(window, before, now, key);
    &&& outcome is Ok <==> counted.len() < settings.max_requests
    &&& outcome matches Err(RateLimitError::LimitExceeded { retry_in }) ==> {
        &&& retry_in.wf()
        &&& retry_in.total() == earliest(remembered(counted, now, outcome)) + window - now.total()
    }
    &&& after.contains_key(key)
    &&& after[key] == remembered(counted, now, outcome)
    &&& capped(
        fresh_entries(before, now.total() - window).insert(
            key,
            remembered(counted, now, outcome),
        ),
        after,
        settings.max_entries as nat,
        key,
    )
}

/// Rate limiter with per-client accounting.
pub struct RateLimiter {
    clock: SystemClock,
    settings: RateLimitSettings,
    window: Delta,
    entries: DashMap<ClientKey, Vec<Timestamp>>,
}

impl RateLimiter {
    /// The readings of the system's clock that checks were held at, the latest at the
    /// end.
    pub closed spec fn readings(&self) -> Seq<Timestamp> {
        self.clock.readings()
    }

    /// The settings in force.
    pub closed spec fn settings(&self) -> RateLimitSettings {
        self.settings
    }

    /// Length of the window in nanoseconds.
    pub closed spec fn window(&self) -> int {
        self.window.total()
    }

    /// The moments on file for each client.
    pub closed spec fn entries(&self) -> Entries {
        entries_of(self.entries)
    }

    /// There is room for at least one client, no more clients are on file than
    /// there is room for, and none has more moments on file than it may have.
    pub closed spec fn wf(&self) -> bool {
        &&& self.window.wf()
        &&& self.window() >= 0
        &&& self.settings().max_entries >= 1
        &&& self.entries().dom().finite()
        &&& self.entries().len() <= self.settings().max_entries
        &&& dated(self.entries())
        &&& forall|k: ClientKey| #[trigger]
            self.entries().contains_key(k) ==> self.entries()[k].len() <= most_on_file(
                self.settings().max_requests,
            )
    }

    /// Construct a limiter with no clients on file. A capacity of zero is raised
    /// to one, and a window too long to represent becomes one second.
    pub fn new(settings: RateLimitSettings) -> (r: RateLimiter)
        requires
            settings.window.wf(),
        ensures
            r.wf(),
            r.entries() == Entries::empty(),
            r.readings().len() == 0,
            r.settings().max_requests == settings.max_requests,
            r.settings().window == settings.window,
            r.settings().max_entries == (if settings.max_entries == 0 {
                1
            } else {
                settings.max_entries
            }),
            r.window() == (if settings.window.total() <= crate::clock::max_delta() {
                settings.window.total()
            } else {
                1_000_000_000
            }),
    {
        let mut settings = settings;
        if settings.max_entries == 0 {
            settings.max_entries = 1;
        }
        let window = chrono_duration(settings.window);
        RateLimiter { clock: SystemClock::new(), settings, window, entries: entries_new() }
    }

    /// Whether a whole window fits on the calendar before `now`, as a check at
    /// `now` needs.
    pub fn covers(&self, now: Timestamp) -> (r: bool)
        requires
            self.wf(),
        ensures
            r == (now.wf() && now.total() - self.window() >= MIN_SECS * 1_000_000_000),
    {
        if now.secs < MIN_SECS || now.secs > MAX_SECS || now.nanos >= NANOS_PER_SEC {
            return false;
        }
        let moment: i128 = now.secs as i128 * 1_000_000_000 + now.nanos as i128;
        let window: i128 = self.window.secs as i128 * 1_000_000_000 + self.window.nanos as i128;
        moment - window >= MIN_SECS as i128 * 1_000_000_000
    }

    /// Record an access for `ip` at the current system time: the clock is read once,
    /// and the access is held at that reading.
    pub fn check(&mut self, ip: ClientAddr) -> (r: Result<(), RateLimitError>)
        requires
            old(self).wf(),
            old(self).window() <= -MIN_SECS * 1_000_000_000,
        ensures
            final(self).wf(),
            final(self).settings() == old(self).settings(),
            final(self).window() == old(self).window(),
            final(self).readings().len() == old(self).readings().len() + 1,
            final(self).readings().drop_last() == old(self).readings(),
            final(self).readings().last().wf(),
            final(self).readings().last().secs >= 0,
            request_step(
                old(self).settings(),
                old(self).window(),
                old(self).entries(),
                final(self).readings().last(),
                ip.spec_key(),
                r,
                final(self).entries(),
            ),
    {
        let ghost before = self.readings();
        let now = system_now(&mut self.clock);
        assert(self.readings() =~= before.push(now));
        assert(before.push(now).drop_last() =~= before);
        self.check_at(now, ip)
    }

    /// Record an access for `ip` at `now`, enforcing the configured rate limits.
    pub fn check_at(&mut self, now: Timestamp, ip: ClientAddr) -> (r: Result<(), RateLimitError>)
        requires
            old(self).wf(),
            now.wf(),
            now.total() - old(self).window() >= MIN_SECS * 1_000_000_000,
        ensures
            final(self).wf(),
            final(self).settings() == old(self).settings(),
            final(self).window() == old(self).window(),
            final(self).readings() == old(self).readings(),
            request_step(
                old(self).settings(),
                old(self).window(),
                old(self).entries(),
                now,
                ip.spec_key(),
                r,
                final(self).entries(),
            ),
    {
        let key = ip.key();
        self.prune_stale(now);
        let ghost kept = self.entries();
        let filed = entries_get_or_default(&mut self.entries, key);
        proof {
            law_pruning_changes_no_answer(
                old(self).entries(),
                now.total(),
                now.total(),
                key,
                self.window(),
            );
            filed@.lemma_filter_len(|t: Timestamp| now.total() - t.total() < self.window());
        }
        let mut moments = recent_of(&filed, now, self.window);
        let ghost counted = counted(self.window(), old(self).entries(), now, key);
        assert(moments@ == counted);
        let outcome = if moments.len() < self.settings.max_requests as usize {
            moments.push(now);
            Ok(())
        } else {
            if moments.len() == 0 {
                moments.push(now);
            }
            let first = match earliest_of(&moments) {
                Some(first) => first,
                None => now,
            };
            let elapsed = moment_diff(now, first);
            let remaining = delta_minus(self.window, elapsed);
            let retry_in = match delta_to_std(remaining) {
                Some(span) => span,
                None => Span::from_secs(1),
            };
            Err(RateLimitError::LimitExceeded { retry_in })
        };
        entries_insert(&mut self.entries, key, moments);
        assert(self.entries() =~= kept.insert(key, moments@));
        let ghost full = self.entries();
        self.enforce_capacity(key);
        assert(full.dom().contains(key) && self.entries().dom().contains(key));
        outcome
    }

    /// Drop the moments before the window that ends at `now`, and the clients without
    /// any others.
    fn prune_stale(&mut self, now: Timestamp)
        requires
            old(self).wf(),
            now.wf(),
            now.total() - old(self).window() >= MIN_SECS * 1_000_000_000,
        ensures
            final(self).wf(),
            final(self).settings() == old(self).settings(),
            final(self).window == old(self).window,
            final(self).readings() == old(self).readings(),
            final(self).entries() == fresh_entries(
                old(self).entries(),
                now.total() - old(self).window(),
            ),
    {
        let cutoff = moment_minus(now, self.window);
        entries_retain_fresh(&mut self.entries, cutoff);
        proof {
            let before = old(self).entries();
            let after = self.entries();
            assert(after.dom().subset_of(before.dom()));
            vstd::set_lib::lemma_len_subset(after.dom(), before.dom());
            assert forall|k: ClientKey| #[trigger] after.contains_key(k) implies all_wf(after[k])
                && after[k].len() <= most_on_file(self.settings().max_requests) by {
                assert(before.contains_key(k));
                before[k].lemma_filter_len(|t: Timestamp| t.total() >= cutoff.total());
                lemma_since_wf(before[k], cutoff.total());
            }
        }
    }

    /// Drop the clients with the earliest moments until no more are on file than
    /// there is room for; `protected` stays.
    fn enforce_capacity(&mut self, protected: ClientKey)
        requires
            old(self).window.wf(),
            old(self).window() >= 0,
            old(self).settings().max_entries >= 1,
            old(self).entries().dom().finite(),
            dated(old(self).entries()),
            forall|k: ClientKey| #[trigger]
                old(self).entries().contains_key(k) ==> old(self).entries()[k].len()
                    <= most_on_file(old(self).settings().max_requests),
            forall|k: ClientKey| #[trigger]
                old(self).entries().contains_key(k) && k != protected ==> old(
                    self,
                ).entries()[k].len() > 0,
        ensures
            final(self).wf(),
            final(self).settings() == old(self).settings(),
            final(self).window == old(self).window,
            final(self).readings() == old(self).readings(),
            capped(
                old(self).entries(),
                final(self).entries(),
                old(self).settings().max_entries as nat,
                protected,
            ),
    {
        let ghost before = self.entries();
        let max_entries = self.settings.max_entries;
        let mut count = entries_len(&self.entries);
        while count > max_entries
            invariant
                count == self.entries().len(),
                max_entries == self.settings.max_entries,
                max_entries >= 1,
                self.window == old(self).window,
                self.settings == old(self).settings,
                self.clock == old(self).clock,
                self.entries().dom().finite(),
                before == old(self).entries(),
                dated(self.entries()),
                forall|k: ClientKey| #[trigger]
                    self.entries().contains_key(k) ==> self.entries()[k].len() <= most_on_file(
                        self.settings.max_requests,
                    ),
                forall|k: ClientKey| #[trigger]
                    self.entries().contains_key(k) && k != protected ==> self.entries()[k].len()
                        > 0,
                self.entries().submap_of(before),
                before.contains_key(protected) ==> self.entries().contains_key(protected),
                before.len() <= max_entries ==> self.entries() == before,
                before.len() > max_entries ==> self.entries().len() >= max_entries,
                forall|gone: ClientKey, kept: ClientKey|
                    before.contains_key(gone) && !#[trigger] self.entries().contains_key(gone)
                        && #[trigger] self.entries().contains_key(kept) && kept != protected
                        ==> earliest(before[gone]) <= earliest(before[kept]),
            decreases count,
        {
            let ghost current = self.entries();
            match self.oldest_key_excluding(Some(protected)) {
                Some(key) => {
                    entries_remove(&mut self.entries, key);
                    count = entries_len(&self.entries);
                    proof {
                        let after = self.entries();
                        assert forall|gone: ClientKey, kept: ClientKey|
                            before.contains_key(gone) && !#[trigger] after.contains_key(gone)
                                && #[trigger] after.contains_key(kept) && kept
                                != protected implies earliest(before[gone]) <= earliest(
                            before[kept],
                        ) by {
                            assert(current.contains_key(kept));
                            assert(before.dom().contains(kept) && before.dom().contains(key));
                            if gone != key {
                                assert(!current.contains_key(gone));
                            } else {
                                assert(earliest(current[key]) <= earliest(current[kept]));
                            }
                        }
                    }
                },
                None => {
                    // Of two clients or more, one can always go.
                    proof {
                        lemma_two_entries(current, protected);
                    }
                },
            }
        }
    }

    /// A client with the earliest moment among those on file, leaving `excluded`
    /// and clients without any moment out. Which one, where several share that
    /// moment, is left open.
    fn oldest_key_excluding(&self, excluded: Option<ClientKey>) -> (r: Option<ClientKey>)
        requires
            dated(self.entries()),
        ensures
            r is None <==> forall|k: ClientKey| #[trigger]
                self.entries().contains_key(k) ==> excluded == Some(k) || self.entries()[k].len()
                    == 0,
            r matches Some(key) ==> {
                &&& self.entries().contains_key(key)
                &&& excluded != Some(key)
                &&& self.entries()[key].len() > 0
                &&& forall|k: ClientKey| #[trigger]
                    self.entries().contains_key(k) && excluded != Some(k)
                        && self.entries()[k].len() > 0 ==> earliest(self.entries()[key])
                        <= earliest(self.entries()[k])
            },
    {
        let items = entries_starts(&self.entries);
        let r = oldest_of(&items, excluded);
        proof {
            let entries = self.entries();
            assert forall|k: ClientKey| #[trigger]
                entries.contains_key(k) && excluded != Some(k) && entries[k].len()
                    > 0 implies exists|i: int| #[trigger]
                eligible(items@, i, excluded) && items@[i].0 == k by {
                let i = choose|i: int| 0 <= i < items@.len() && (#[trigger] items@[i]).0 == k;
                assert(eligible(items@, i, excluded));
            }
            assert forall|i: int| #[trigger] eligible(items@, i, excluded) implies {
                &&& entries.contains_key(items@[i].0)
                &&& excluded != Some(items@[i].0)
                &&& entries[items@[i].0].len() > 0
                &&& (items@[i].1->0).total() == earliest(entries[items@[i].0])
            } by {}
        }
        r
    }

    /// Number of clients on file.
    pub fn entry_count(&self) -> (r: usize)
        ensures
            r == self.entries().len(),
    {
        entries_len(&self.entries)
    }

    /// Whether `ip` is on file.
    pub fn tracks(&self, ip: ClientAddr) -> (r: bool)
        ensures
            r == self.entries().contains_key(ip.spec_key()),
    {
        entries_contains(&self.entries, ip.key())
    }
}

/// The window as a signed difference; one second where it is too long to represent.
fn chrono_duration(window: Span) -> (r: Delta)
    requires
        window.wf(),
    ensures
        r.wf(),
        r.total() == (if window.total() <= crate::clock::max_delta() {
            window.total()
        } else {
            1_000_000_000
        }),
{
    match delta_from_std(window) {
        Some(delta) => delta,
        None => Delta { secs: 1, nanos: 0 },
    }
}

/// With two entries or more, some entry is not the protected one.
proof fn lemma_two_entries(entries: Entries, protected: ClientKey)
    requires
        entries.dom().finite(),
        entries.len() >= 2,
    ensures
        exists|k: ClientKey| #[trigger] entries.contains_key(k) && k != protected,
{
    if forall|k: ClientKey| #[trigger] entries.contains_key(k) ==> k == protected {
        let only = Set::<ClientKey>::empty().insert(protected);
        assert(entries.dom().subset_of(only)) by {
            assert forall|k: ClientKey| #[trigger] entries.dom().contains(k) implies only.contains(k) by {
                assert(entries.contains_key(k));
            }
        }
        vstd::set_lib::lemma_len_subset(entries.dom(), only);
    }
}

/// The earliest of some moments is one of them, and none is earlier.
proof fn lemma_earliest(moments: Seq<Timestamp>)
    requires
        moments.len() > 0,
    ensures
        forall|i: int| 0 <= i < moments.len() ==> earliest(moments) <= (#[trigger] moments[i]).total(),
        exists|i: int| 0 <= i < moments.len() && (#[trigger] moments[i]).total() == earliest(moments),
    decreases moments.len(),
{
    if moments.len() > 1 {
        let front = moments.drop_last();
        lemma_earliest(front);
        assert(moments[moments.len() - 1] == moments.last());
        assert(forall|i: int| 0 <= i < front.len() ==> front[i] == #[trigger] moments[i]);
        let j = choose|i: int|
            0 <= i < front.len() && (#[trigger] front[i]).total() == earliest(front);
        assert(moments[j] == front[j]);
    } else {
        assert(moments[0].total() == earliest(moments));
    }
}

/// Dropping moments leaves none off the calendar.
proof fn lemma_since_wf(moments: Seq<Timestamp>, cutoff: int)
    requires
        all_wf(moments),
    ensures
        all_wf(since(moments, cutoff)),
    decreases moments.len(),
{
    reveal(Seq::filter);
    if moments.len() > 0 {
        assert(moments.last() == moments[moments.len() - 1]);
        lemma_since_wf(moments.drop_last(), cutoff);
    }
}

/// Whoever looks at the window that ends at `now` sees nothing of moments that were
/// dropped as too old at `then` or before.
proof fn lemma_recent_since(moments: Seq<Timestamp>, then: int, now: int, window: int)
    requires
        then <= now,
    ensures
        recent(since(moments, then - window), now, window) == recent(moments, now, window),
    decreases moments.len(),
{
    reveal(Seq::filter);
    if moments.len() > 0 {
        let front = moments.drop_last();
        lemma_recent_since(front, then, now, window);
        if moments.last().total() >= then - window {
            let kept = since(front, then - window);
            assert(since(moments, then - window) == kept.push(moments.last()));
            assert(kept.push(moments.last()).drop_last() =~= kept);
        }
    } else {
        assert(since(moments, then - window) =~= moments);
    }
}

/// The window that ends later shows part of what the one that ends earlier shows.
proof fn lemma_recent_recent(moments: Seq<Timestamp>, then: int, now: int, window: int)
    requires
        then <= now,
    ensures
        recent(recent(moments, then, window), now, window) == recent(moments, now, window),
    decreases moments.len(),
{
    reveal(Seq::filter);
    if moments.len() > 0 {
        let front = moments.drop_last();
        lemma_recent_recent(front, then, now, window);
        if then - moments.last().total() < window {
            let kept = recent(front, then, window);
            assert(recent(moments, then, window) == kept.push(moments.last()));
            assert(kept.push(moments.last()).drop_last() =~= kept);
        }
    } else {
        assert(recent(moments, then, window) =~= moments);
    }
}

/// What one more moment adds to the window.
proof fn lemma_recent_push(moments: Seq<Timestamp>, t: Timestamp, now: int, window: int)
    ensures
        recent(moments.push(t), now, window) == if now - t.total() < window {
            recent(moments, now, window).push(t)
        } else {
            recent(moments, now, window)
        },
{
    reveal(Seq::filter);
    assert(moments.push(t).drop_last() =~= moments);
}

/// A window that shows every moment shows them all; one that misses a moment shows
/// fewer.
proof fn lemma_recent_len(moments: Seq<Timestamp>, now: int, window: int)
    ensures
        recent(moments, now, window).len() <= moments.len(),
        (forall|i: int| 0 <= i < moments.len() ==> now - (#[trigger] moments[i]).total() < window)
            ==> recent(moments, now, window) == moments,
        (exists|i: int| 0 <= i < moments.len() && now - (#[trigger] moments[i]).total() >= window)
            ==> recent(moments, now, window).len() < moments.len(),
        forall|i: int|
            0 <= i < recent(moments, now, window).len() ==> now - (#[trigger] recent(
                moments,
                now,
                window,
            )[i]).total() < window,
    decreases moments.len(),
{
    reveal(Seq::filter);
    if moments.len() > 0 {
        let front = moments.drop_last();
        lemma_recent_len(front, now, window);
        assert(moments =~= front.push(moments.last()));
        assert(moments.last() == moments[moments.len() - 1]);
        assert(forall|i: int| 0 <= i < front.len() ==> front[i] == #[trigger] moments[i]);
        if exists|i: int| 0 <= i < moments.len() && now - (#[trigger] moments[i]).total() >= window {
            let i = choose|i: int|
                0 <= i < moments.len() && now - (#[trigger] moments[i]).total() >= window;
            if i < front.len() {
                assert(now - front[i].total() >= window);
            }
        }
    }
}

/// Two addresses share a key only if they are the same address.
pub proof fn law_addresses_have_own_keys(a: ClientAddr, b: ClientAddr)
    ensures
        a.spec_key() == b.spec_key() <==> a == b,
{
}

/// A limiter never has more clients on file than there is room for, and never
/// keeps more moments of a client than requests are permitted in a window, or one
/// where none is permitted.
pub proof fn law_limiter_stays_bounded(limiter: RateLimiter)
    requires
        limiter.wf(),
    ensures
        limiter.settings().max_entries >= 1,
        limiter.entries().dom().finite(),
        limiter.entries().len() <= limiter.settings().max_entries,
        forall|k: ClientKey| #[trigger]
            limiter.entries().contains_key(k) ==> limiter.entries()[k].len() <= most_on_file(
                limiter.settings().max_requests,
            ),
{
}

/// A client's answer depends on that client's own moments alone: limiters that
/// agree on them give the same answer, whatever else they have on file.
pub proof fn law_answer_depends_on_own_entry(
    settings: RateLimitSettings,
    window: int,
    now: Timestamp,
    key: ClientKey,
    before1: Entries,
    outcome1: Result<(), RateLimitError>,
    after1: Entries,
    before2: Entries,
    outcome2: Result<(), RateLimitError>,
    after2: Entries,
)
    requires
        moments_at(before1, key) == moments_at(before2, key),
        request_step(settings, window, before1, now, key, outcome1, after1),
        request_step(settings, window, before2, now, key, outcome2, after2),
    ensures
        outcome1 == outcome2,
{
    match (outcome1, outcome2) {
        (
            Err(RateLimitError::LimitExceeded { retry_in: a }),
            Err(RateLimitError::LimitExceeded { retry_in: b }),
        ) => {
            assert(a.secs == b.secs && a.nanos == b.nanos);
            assert(a == b);
        },
        (Ok(a), Ok(b)) => {
            assert(a == b);
        },
        _ => {},
    }
}

/// Dropping what is stale never changes an answer, then or later: the moments that
/// a request is held against are the same with and without the clean-up.
pub proof fn law_pruning_changes_no_answer(
    entries: Entries,
    then: int,
    now: int,
    key: ClientKey,
    window: int,
)
    requires
        then <= now,
    ensures
        recent(moments_at(fresh_entries(entries, then - window), key), now, window) == recent(
            moments_at(entries, key),
            now,
            window,
        ),
{
    let kept = fresh_entries(entries, then - window);
    lemma_recent_since(moments_at(entries, key), then, now, window);
    if entries.contains_key(key) {
        assert(kept.contains_key(key) <==> since(entries[key], then - window).len() > 0);
        if !kept.contains_key(key) {
            assert(since(entries[key], then - window) =~= Seq::<Timestamp>::empty());
        }
    }
}

/// A request leaves the moments of another client that may still count as they
/// were, or drops the client; it drops only clients without any such moment, unless
/// there is no room.
pub proof fn law_other_clients_keep_their_entries(
    settings: RateLimitSettings,
    window: int,
    before: Entries,
    now: Timestamp,
    key: ClientKey,
    outcome: Result<(), RateLimitError>,
    after: Entries,
    other: ClientKey,
)
    requires
        other != key,
        request_step(settings, window, before, now, key, outcome, after),
    ensures
        after.contains_key(other) ==> before.contains_key(other) && after[other] == since(
            before[other],
            now.total() - window,
        ),
        before.contains_key(other) && since(before[other], now.total() - window).len() > 0
            && fresh_entries(before, now.total() - window).dom().insert(key).len()
            <= settings.max_entries ==> after.contains_key(other),
{
    let kept = fresh_entries(before, now.total() - window);
    let full = kept.insert(key, remembered(counted(window, before, now, key), now, outcome));
    assert(full.dom() =~= kept.dom().insert(key));
    assert(full.dom().contains(other) <==> kept.dom().contains(other));
}

/// A refused client is told to wait no longer than the window, and for some time
/// unless the window is empty, provided the clock has not run backwards.
pub proof fn law_retry_is_within_window(
    settings: RateLimitSettings,
    window: int,
    before: Entries,
    now: Timestamp,
    key: ClientKey,
    retry_in: Span,
    after: Entries,
)
    requires
        window >= 0,
        forall|i: int|
            0 <= i < moments_at(before, key).len() ==> (#[trigger] moments_at(before, key)[i]).total()
                <= now.total(),
        request_step(
            settings,
            window,
            before,
            now,
            key,
            Err(RateLimitError::LimitExceeded { retry_in }),
            after,
        ),
    ensures
        0 <= retry_in.total() <= window,
        window > 0 ==> retry_in.total() > 0,
{
    let moments = moments_at(before, key);
    let seen = counted(window, before, now, key);
    lemma_recent_len(moments, now.total(), window);
    if seen.len() > 0 {
        lemma_earliest(seen);
        let i = choose|i: int| 0 <= i < seen.len() && (#[trigger] seen[i]).total() == earliest(seen);
        let pred = |t: Timestamp| now.total() - t.total() < window;
        assert(moments.filter(pred).contains(seen[i]));
        moments.lemma_filter_contains_rev(pred, seen[i]);
        let j = choose|j: int| 0 <= j < moments.len() && moments[j] == seen[i];
        assert(moments[j].total() <= now.total());
    }
}

/// A refused client that asks again is admitted once it has waited as long as it
/// was told, provided any requests are permitted at all, and not before.
pub proof fn law_waiting_as_told_is_needed_and_enough(
    settings: RateLimitSettings,
    window: int,
    before: Entries,
    now: Timestamp,
    key: ClientKey,
    retry_in: Span,
    between: Entries,
    later: Timestamp,
    outcome: Result<(), RateLimitError>,
    after: Entries,
)
    requires
        settings.max_requests >= 1,
        moments_at(before, key).len() <= settings.max_requests,
        request_step(
            settings,
            window,
            before,
            now,
            key,
            Err(RateLimitError::LimitExceeded { retry_in }),
            between,
        ),
        later.total() >= now.total(),
        request_step(settings, window, between, later, key, outcome, after),
    ensures
        outcome is Ok <==> later.total() >= now.total() + retry_in.total(),
{
    let seen = counted(window, before, now, key);
    lemma_recent_len(moments_at(before, key), now.total(), window);
    lemma_recent_len(seen, later.total(), window);
    lemma_earliest(seen);
    if later.total() >= now.total() + retry_in.total() {
        let i = choose|i: int| 0 <= i < seen.len() && (#[trigger] seen[i]).total() == earliest(seen);
        assert(later.total() - seen[i].total() >= window);
    }
}

/// Where no requests are permitted, every request is refused, and the wait that a
/// client is told counts down from its first refused request until a window has
/// passed.
pub proof fn law_wait_counts_down_without_a_quota(
    settings: RateLimitSettings,
    window: int,
    before: Entries,
    now: Timestamp,
    key: ClientKey,
    outcome: Result<(), RateLimitError>,
    between: Entries,
    later: Timestamp,
    again: Result<(), RateLimitError>,
    after: Entries,
)
    requires
        settings.max_requests == 0,
        counted(window, before, now, key).len() == 0,
        request_step(settings, window, before, now, key, outcome, between),
        later.total() - now.total() < window,
        request_step(settings, window, between, later, key, again, after),
    ensures
        outcome matches Err(RateLimitError::LimitExceeded { retry_in }) && retry_in.total() == window,
        again matches Err(RateLimitError::LimitExceeded { retry_in }) && retry_in.total() == window
            - (later.total() - now.total()),
{
    let none = counted(window, before, now, key);
    lemma_recent_push(none, now, later.total(), window);
    assert(recent(none, later.total(), window) =~= Seq::<Timestamp>::empty()) by {
        lemma_recent_len(none, later.total(), window);
    }
}

/// `states`, `times`, `keys` and `outcomes` tell of requests that the limiter
/// handled one after the other.
pub open spec fn handled(
    settings: RateLimitSettings,
    window: int,
    states: Seq<Entries>,
    times: Seq<Timestamp>,
    keys: Seq<ClientKey>,
    outcomes: Seq<Result<(), RateLimitError>>,
) -> bool {
    &&& states.len() == times.len() + 1
    &&& keys.len() == times.len()
    &&& outcomes.len() == times.len()
    &&& forall|i: int|
        0 <= i < times.len() ==> request_step(
            settings,
            window,
            states[i],
            #[trigger] times[i],
            keys[i],
            outcomes[i],
            states[i + 1],
        )
}

/// The clock never runs backwards.
pub open spec fn in_order(times: Seq<Timestamp>) -> bool {
    forall|i: int, j: int|
        0 <= i <= j < times.len() ==> (#[trigger] times[i]).total() <= (#[trigger] times[j]).total()
}

/// No request makes room by dropping a client that still has a moment which may count.
pub open spec fn never_crowded_out(
    window: int,
    states: Seq<Entries>,
    times: Seq<Timestamp>,
    key: ClientKey,
) -> bool {
    forall|i: int|
        0 <= i < times.len() && fresh_entries(
            states[i],
            (#[trigger] times[i]).total() - window,
        ).contains_key(key) ==> states[i + 1].contains_key(key)
}

/// The moments at which `key` was admitted among the first `n` requests.
pub open spec fn admitted(
    times: Seq<Timestamp>,
    keys: Seq<ClientKey>,
    outcomes: Seq<Result<(), RateLimitError>>,
    key: ClientKey,
    n: int,
) -> Seq<Timestamp>
    decreases n,
{
    if n <= 0 {
        seq![]
    } else {
        let before = admitted(times, keys, outcomes, key, n - 1);
        if keys[n - 1] == key && outcomes[n - 1] is Ok {
            before.push(times[n - 1])
        } else {
            before
        }
    }
}

/// What the limiter has on file shows each window just as the whole history does.
proof fn lemma_file_shows_history(
    settings: RateLimitSettings,
    window: int,
    states: Seq<Entries>,
    times: Seq<Timestamp>,
    keys: Seq<ClientKey>,
    outcomes: Seq<Result<(), RateLimitError>>,
    key: ClientKey,
    n: int,
    now: int,
)
    requires
        handled(settings, window, states, times, keys, outcomes),
        in_order(times),
        settings.max_requests >= 1,
        never_crowded_out(window, states, times, key),
        0 <= n <= times.len(),
        n > 0 ==> times[n - 1].total() <= now,
    ensures
        recent(moments_at(states[n], key), now, window) == recent(
            moments_at(states[0], key) + admitted(times, keys, outcomes, key, n),
            now,
            window,
        ),
    decreases n,
{
    let start = moments_at(states[0], key);
    if n == 0 {
        assert(start + Seq::<Timestamp>::empty() =~= start);
    } else {
        let t = times[n - 1];
        let then = t.total();
        let before = states[n - 1];
        let after = states[n];
        let history = admitted(times, keys, outcomes, key, n - 1);
        if n > 1 {
            assert(times[n - 2].total() <= times[n - 1].total());
        }
        lemma_file_shows_history(
            settings,
            window,
            states,
            times,
            keys,
            outcomes,
            key,
            n - 1,
            now,
        );
        assert(request_step(settings, window, before, t, keys[n - 1], outcomes[n - 1], after));
        law_pruning_changes_no_answer(before, then, now, key, window);
        let kept = fresh_entries(before, then - window);
        if keys[n - 1] == key {
            let seen = counted(window, before, t, key);
            lemma_recent_recent(moments_at(before, key), then, now, window);
            lemma_recent_push(seen, t, now, window);
            lemma_recent_push(start + history, t, now, window);
            assert((start + history).push(t) =~= start + history.push(t));
        } else {
            law_other_clients_keep_their_entries(
                settings,
                window,
                before,
                t,
                keys[n - 1],
                outcomes[n - 1],
                after,
                key,
            );
            assert(after.contains_key(key) <==> kept.contains_key(key)) by {
                if kept.contains_key(key) {
                    assert(states[n - 1 + 1].contains_key(key));
                } else if after.contains_key(key) {
                    let seen = counted(window, before, t, keys[n - 1]);
                    assert(after.dom().contains(key));
                    assert(kept.insert(
                        keys[n - 1],
                        remembered(seen, t, outcomes[n - 1]),
                    ).dom().contains(key));
                }
            }
            assert(moments_at(after, key) =~= moments_at(kept, key));
        }
    }
}

/// A request is admitted if and only if fewer than `max_requests` of the client's
/// admitted requests lie within the window that ends with it: those of the history,
/// and those that were on file when it began. The requests of other clients do not
/// matter, as long as they do not crowd the client out.
pub proof fn law_admitted_while_the_window_has_room(
    settings: RateLimitSettings,
    window: int,
    states: Seq<Entries>,
    times: Seq<Timestamp>,
    keys: Seq<ClientKey>,
    outcomes: Seq<Result<(), RateLimitError>>,
    i: int,
)
    requires
        handled(settings, window, states, times, keys, outcomes),
        in_order(times),
        0 <= i < times.len(),
        never_crowded_out(window, states, times, keys[i]),
    ensures
        outcomes[i] is Ok <==> recent(
            moments_at(states[0], keys[i]) + admitted(times, keys, outcomes, keys[i], i),
            times[i].total(),
            window,
        ).len() < settings.max_requests,
{
    if settings.max_requests >= 1 {
        if i > 0 {
            assert(times[i - 1].total() <= times[i].total());
        }
        lemma_file_shows_history(
            settings,
            window,
            states,
            times,
            keys,
            outcomes,
            keys[i],
            i,
            times[i].total(),
        );
    } else {
        assert(request_step(
            settings,
            window,
            states[i],
            times[i],
            keys[i],
            outcomes[i],
            states[i + 1],
        ));
    }
}

/// The moments that lie within the window that ends at `m`, and not behind it.
pub open spec fn within(moments: Seq<Timestamp>, m: int, window: int) -> Seq<Timestamp> {
    moments.filter(|t: Timestamp| m - window < t.total() <= m)
}

/// The window slides: wherever one ends, at most `max_requests` admitted requests of
/// a client lie within it.
pub proof fn law_no_window_admits_more_than_the_quota(
    settings: RateLimitSettings,
    window: int,
    states: Seq<Entries>,
    times: Seq<Timestamp>,
    keys: Seq<ClientKey>,
    outcomes: Seq<Result<(), RateLimitError>>,
    key: ClientKey,
    m: int,
)
    requires
        handled(settings, window, states, times, keys, outcomes),
        in_order(times),
        never_crowded_out(window, states, times, key),
    ensures
        within(
            admitted(times, keys, outcomes, key, times.len() as int),
            m,
            window,
        ).len() <= settings.max_requests,
{
    lemma_quota(settings, window, states, times, keys, outcomes, key, m, times.len() as int);
}

proof fn lemma_quota(
    settings: RateLimitSettings,
    window: int,
    states: Seq<Entries>,
    times: Seq<Timestamp>,
    keys: Seq<ClientKey>,
    outcomes: Seq<Result<(), RateLimitError>>,
    key: ClientKey,
    m: int,
    n: int,
)
    requires
        handled(settings, window, states, times, keys, outcomes),
        in_order(times),
        never_crowded_out(window, states, times, key),
        0 <= n <= times.len(),
    ensures
        within(admitted(times, keys, outcomes, key, n), m, window).len() <= settings.max_requests,
    decreases n,
{
    reveal(Seq::filter);
    if n > 0 {
        lemma_quota(settings, window, states, times, keys, outcomes, key, m, n - 1);
        let t = times[n - 1];
        let history = admitted(times, keys, outcomes, key, n - 1);
        if keys[n - 1] == key && outcomes[n - 1] is Ok {
            assert(history.push(t).drop_last() =~= history);
            if m - window < t.total() <= m {
                law_admitted_while_the_window_has_room(
                    settings,
                    window,
                    states,
                    times,
                    keys,
                    outcomes,
                    n - 1,
                );
                let start = moments_at(states[0], key);
                let pred = |s: Timestamp| t.total() - s.total() < window;
                Seq::filter_distributes_over_add(start, history, pred);
                lemma_within_recent(history, m, t.total(), window);
            }
        }
    }
}

/// A window that ends later holds no moment that one that ends earlier does not
/// show.
proof fn lemma_within_recent(moments: Seq<Timestamp>, m: int, now: int, window: int)
    requires
        now <= m,
    ensures
        within(moments, m, window).len() <= recent(moments, now, window).len(),
    decreases moments.len(),
{
    reveal(Seq::filter);
    if moments.len() > 0 {
        lemma_within_recent(moments.drop_last(), m, now, window);
    }
}

/// A moment counts in the window that ends at `now` exactly where less than the
/// window has passed since it, and is stale before a cutoff exactly where it is
/// earlier; the order of moments is kept.
pub proof fn law_moments_count_for_one_window(
    moments: Seq<Timestamp>,
    t: Timestamp,
    now: int,
    window: int,
    cutoff: int,
)
    ensures
        recent(Seq::empty(), now, window).len() == 0,
        since(Seq::empty(), cutoff).len() == 0,
        recent(moments.push(t), now, window) == if now - t.total() < window {
            recent(moments, now, window).push(t)
        } else {
            recent(moments, now, window)
        },
        since(moments.push(t), cutoff) == if t.total() >= cutoff {
            since(moments, cutoff).push(t)
        } else {
            since(moments, cutoff)
        },
{
    lemma_recent_push(moments, t, now, window);
    reveal(Seq::filter);
    assert(moments.push(t).drop_last() =~= moments);
}

/// The earliest of some moments is one of them, and none of them is earlier.
pub proof fn law_earliest_moment(moments: Seq<Timestamp>)
    requires
        moments.len() > 0,
    ensures
        forall|i: int| 0 <= i < moments.len() ==> earliest(moments) <= (#[trigger] moments[i]).total(),
        exists|i: int| 0 <= i < moments.len() && (#[trigger] moments[i]).total() == earliest(moments),
{
    lemma_earliest(moments);
}

/// What is on file of the client once its request is handled: the moments that it was
/// held against and, where it was admitted, the request. A refused request is on file
/// only where nothing else is.
pub proof fn law_admitted_requests_are_put_on_file(
    settings: RateLimitSettings,
    window: int,
    before: Entries,
    now: Timestamp,
    key: ClientKey,
    outcome: Result<(), RateLimitError>,
    after: Entries,
)
    requires
        request_step(settings, window, before, now, key, outcome, after),
    ensures
        after.contains_key(key),
        ({
            let held = if before.contains_key(key) {
                recent(before[key], now.total(), window)
            } else {
                seq![]
            };
            &&& outcome is Ok <==> held.len() < settings.max_requests
            &&& outcome is Ok || held.len() == 0 ==> after[key] == held.push(now)
            &&& outcome is Err && held.len() > 0 ==> after[key] == held
            &&& outcome matches Err(RateLimitError::LimitExceeded { retry_in })
                ==> now.total() + retry_in.total() == window + earliest(after[key])
        }),
{
    assert(recent(Seq::empty(), now.total(), window) =~= Seq::<Timestamp>::empty()) by {
        lemma_recent_len(Seq::empty(), now.total(), window);
    }
}

/// Where there are more clients than there is room for, exactly the surplus goes,
/// never the client that asks, and of the others none stays whose earliest moment is
/// before that of one who goes.
pub proof fn law_oldest_clients_go_first(
    settings: RateLimitSettings,
    window: int,
    before: Entries,
    now: Timestamp,
    key: ClientKey,
    outcome: Result<(), RateLimitError>,
    after: Entries,
    gone: ClientKey,
    kept: ClientKey,
)
    requires
        before.dom().finite(),
        request_step(settings, window, before, now, key, outcome, after),
    ensures
        after.len() <= settings.max_entries,
        ({
            let cutoff = now.total() - window;
            let candidates = Set::new(
                |k: ClientKey|
                    k == key || (before.contains_key(k) && since(before[k], cutoff).len() > 0),
            );
            &&& after.dom().subset_of(candidates)
            &&& after.contains_key(key)
            &&& candidates.len() <= settings.max_entries ==> after.dom() == candidates
            &&& candidates.len() > settings.max_entries ==> after.len() == settings.max_entries
            &&& gone != key && kept != key && candidates.contains(gone) && !after.contains_key(gone)
                && after.contains_key(kept) ==> earliest(since(before[gone], cutoff)) <= earliest(
                since(before[kept], cutoff),
            )
        }),
{
    let cutoff = now.total() - window;
    let fresh = fresh_entries(before, cutoff);
    let full = fresh.insert(key, remembered(counted(window, before, now, key), now, outcome));
    let candidates = Set::new(
        |k: ClientKey| k == key || (before.contains_key(k) && since(before[k], cutoff).len() > 0),
    );
    assert(fresh.dom().subset_of(before.dom()));
    vstd::set_lib::lemma_len_subset(fresh.dom(), before.dom());
    assert(full.dom() =~= candidates);
    assert forall|k: ClientKey| #[trigger] after.dom().contains(k) implies candidates.contains(k) by {
        assert(full.dom().contains(k));
    }
    if gone != key && kept != key && candidates.contains(gone) && !after.contains_key(gone)
        && after.contains_key(kept) {
        assert(full.dom().contains(gone) && full.contains_key(gone));
        assert(after.dom().contains(kept) && full.dom().contains(kept));
        assert(full[gone] == since(before[gone], cutoff));
        assert(full[kept] == since(before[kept], cutoff));
    }
}

/// A client that asks again once a whole window has passed since its last request is
/// let in, however many requests came before, provided any are permitted and the
/// clock did not run backwards.
pub proof fn law_client_is_let_in_again_once_the_window_has_passed(
    settings: RateLimitSettings,
    window: int,
    before: Entries,
    now: Timestamp,
    key: ClientKey,
    outcome: Result<(), RateLimitError>,
    between: Entries,
    later: Timestamp,
    again: Result<(), RateLimitError>,
    after: Entries,
)
    requires
        settings.max_requests >= 1,
        forall|i: int|
            0 <= i < moments_at(before, key).len() ==> (#[trigger] moments_at(before, key)[i]).total()
                <= now.total(),
        request_step(settings, window, before, now, key, outcome, between),
        later.total() >= now.total() + window,
        request_step(settings, window, between, later, key, again, after),
    ensures
        again is Ok,
{
    let moments = moments_at(before, key);
    let seen = counted(window, before, now, key);
    let filed = moments_at(between, key);
    let pred = |t: Timestamp| now.total() - t.total() < window;
    assert forall|i: int| 0 <= i < filed.len() implies (#[trigger] filed[i]).total()
        <= now.total() by {
        if i < seen.len() {
            assert(filed[i] == seen[i]);
            assert(moments.filter(pred).contains(seen[i]));
            moments.lemma_filter_contains_rev(pred, seen[i]);
            let j = choose|j: int| 0 <= j < moments.len() && moments[j] == seen[i];
            assert(moments[j].total() <= now.total());
        }
    }
    lemma_recent_len(filed, later.total(), window);
    let left = recent(filed, later.total(), window);
    if left.len() > 0 {
        let late = |t: Timestamp| later.total() - t.total() < window;
        assert(filed.filter(late).contains(left[0]));
        filed.lemma_filter_contains_rev(late, left[0]);
        let j = choose|j: int| 0 <= j < filed.len() && filed[j] == left[0];
        assert(filed[j].total() <= now.total());
        assert(later.total() - left[0].total() < window);
    }
}

} // verus!
