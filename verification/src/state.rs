//! Events an actor has disabled, scoped to the actor and its state, and the
//! table of probe events a state can ignore.
use vstd::prelude::*;
use crate::text::{eq_ignore_ascii_case, lemma_lower_idempotent, lower, same_ignoring_ascii_case, to_ascii_lowercase};

verus! {

/// The engine's probe events, in the order of their bits in a state's
/// ignore mask.
pub const PROBE_EVENTS: [&'static str; 64] = [
    "Spawned",
    "Destroyed",
    "GainedChild",
    "LostChild",
    "Probe4",
    "Probe5",
    "Trigger",
    "UnTrigger",
    "Timer",
    "HitWall",
    "Falling",
    "Landed",
    "ZoneChange",
    "Touch",
    "UnTouch",
    "Bump",
    "BeginState",
    "EndState",
    "BaseChange",
    "Attach",
    "Detach",
    "ActorEntered",
    "ActorLeaving",
    "KillCredit",
    "AnimEnd",
    "EndedRotation",
    "InterpolateEnd",
    "EncroachingOn",
    "EncroachedBy",
    "FootZoneChange",
    "HeadZoneChange",
    "PainTimer",
    "SpeechTimer",
    "MayFall",
    "Probe34",
    "Die",
    "Tick",
    "PlayerTick",
    "Expired",
    "Probe39",
    "SeePlayer",
    "EnemyNotVisible",
    "HearNoise",
    "UpdateEyeHeight",
    "SeeMonster",
    "SeeFriend",
    "SpecialHandling",
    "BotDesireability",
    "Probe48",
    "Probe49",
    "Probe50",
    "Probe51",
    "Probe52",
    "Probe53",
    "Probe54",
    "Probe55",
    "Probe56",
    "Probe57",
    "Probe58",
    "Probe59",
    "Probe60",
    "Probe61",
    "Probe62",
    "Probe63",
];

/// The bit of a probe event in an ignore mask: the first entry of
/// `PROBE_EVENTS` that matches `event` ignoring ASCII case.
pub fn probe_event_index(event: &str) -> (r: Option<usize>)
    ensures
        r matches Some(i) ==> i < 64 && same_ignoring_ascii_case(PROBE_EVENTS[i as int]@, event@)
            && forall|j: int| 0 <= j < i ==> !same_ignoring_ascii_case(PROBE_EVENTS[j]@, event@),
        r is None ==> forall|j: int| 0 <= j < 64 ==> !same_ignoring_ascii_case(PROBE_EVENTS[j]@, event@),
{
    let mut i: usize = 0;
    while i < 64
        invariant
            0 <= i <= 64,
            forall|j: int| 0 <= j < i ==> !same_ignoring_ascii_case(PROBE_EVENTS[j]@, event@),
        decreases 64 - i,
    {
        if eq_ignore_ascii_case(PROBE_EVENTS[i], event) {
            return Some(i);
        }
        i = i + 1;
    }
    None
}

/// The events disabled in one scope: an actor, and a state name folded to
/// lower case (empty when not scoped to a state).
pub struct DisabledScope {
    pub actor: usize,
    pub state: String,
    pub events: Vec<String>,
}

/// Events disabled per actor and state.
pub struct DisabledEvents {
    pub scopes: Vec<DisabledScope>,
}

impl DisabledEvents {
    /// No scope is listed twice and no event twice within a scope, and all
    /// names are folded to lower case.
    pub open spec fn wf(&self) -> bool {
        &&& forall|i: int, j: int|
            0 <= i < j < self.scopes@.len() ==> !(self.scopes@[i].actor == self.scopes@[j].actor
                && self.scopes@[i].state@ == self.scopes@[j].state@)
        &&& forall|i: int, a: int, b: int|
            0 <= i < self.scopes@.len() && 0 <= a < b < self.scopes@[i].events@.len()
                ==> #[trigger] self.scopes@[i].events@[a]@ != #[trigger] self.scopes@[i].events@[b]@
        &&& forall|i: int| 0 <= i < self.scopes@.len() ==> lower(#[trigger] self.scopes@[i].state@) == self.scopes@[i].state@
        &&& forall|i: int, k: int|
            0 <= i < self.scopes@.len() && 0 <= k < self.scopes@[i].events@.len() ==> lower(
                #[trigger] self.scopes@[i].events@[k]@,
            ) == self.scopes@[i].events@[k]@
    }

    /// Whether `event` is disabled in the scope of `actor` and `state`
    /// (names as stored, that is folded to lower case).
    pub open spec fn holds(&self, actor: usize, state: Seq<char>, event: Seq<char>) -> bool {
        exists|i: int, k: int|
            0 <= i < self.scopes@.len() && self.scopes@[i].actor == actor && self.scopes@[i].state@
                == state && 0 <= k < self.scopes@[i].events@.len() && #[trigger] self.scopes@[i].events@[k]@
                == event
    }

    pub fn new() -> (r: DisabledEvents)
        ensures
            r.wf(),
            forall|a: usize, s: Seq<char>, e: Seq<char>| !r.holds(a, s, e),
    {
        DisabledEvents { scopes: Vec::new() }
    }
}

/// The scope key of an actor and optional state: the state folded to lower
/// case, empty when absent.
pub open spec fn scope_state(state: Option<&str>) -> Seq<char> {
    match state {
        Some(s) => lower(s@),
        None => Seq::empty(),
    }
}

/// Whether an event is disabled does not depend on the ASCII case of the
/// state or event name it is asked with.
pub proof fn lemma_disabled_ignores_case(
    disabled: DisabledEvents,
    actor: usize,
    state: Seq<char>,
    other_state: Seq<char>,
    event: Seq<char>,
    other_event: Seq<char>,
)
    requires
        same_ignoring_ascii_case(state, other_state),
        same_ignoring_ascii_case(event, other_event),
    ensures
        disabled.holds(actor, lower(state), lower(event)) == disabled.holds(
            actor,
            lower(other_state),
            lower(other_event),
        ),
{
}

/// The key under which an actor's events in a state are kept.
pub fn event_key(actor: usize, state: Option<&str>) -> (r: (usize, String))
    ensures
        r.0 == actor,
        r.1@ == scope_state(state),
{
    match state {
        Some(s) => (actor, to_ascii_lowercase(s)),
        None => (actor, String::new()),
    }
}

fn find_scope(disabled: &DisabledEvents, actor: usize, state: &String) -> (r: Option<usize>)
    requires
        disabled.wf(),
    ensures
        r matches Some(i) ==> i < disabled.scopes@.len() && disabled.scopes@[i as int].actor == actor
            && disabled.scopes@[i as int].state@ == state@,
        r is None ==> forall|i: int|
            0 <= i < disabled.scopes@.len() ==> !(disabled.scopes@[i].actor == actor
                && disabled.scopes@[i].state@ == state@),
{
    let mut i: usize = 0;
    while i < disabled.scopes.len()
        invariant
            0 <= i <= disabled.scopes@.len(),
            forall|j: int|
                0 <= j < i ==> !(disabled.scopes@[j].actor == actor && disabled.scopes@[j].state@
                    == state@),
        decreases disabled.scopes@.len() - i,
    {
        if disabled.scopes[i].actor == actor && disabled.scopes[i].state == *state {
            return Some(i);
        }
        i = i + 1;
    }
    None
}

fn find_event(events: &Vec<String>, event: &String) -> (r: Option<usize>)
    ensures
        r matches Some(k) ==> k < events@.len() && events@[k as int]@ == event@,
        r is None ==> forall|k: int| 0 <= k < events@.len() ==> events@[k]@ != event@,
{
    let mut k: usize = 0;
    while k < events.len()
        invariant
            0 <= k <= events@.len(),
            forall|j: int| 0 <= j < k ==> events@[j]@ != event@,
        decreases events@.len() - k,
    {
        if events[k] == *event {
            return Some(k);
        }
        k = k + 1;
    }
    None
}

/// Disables or enables `event` for `actor` in `state`, ignoring ASCII case
/// of both names; every other scope and event keeps its setting.
pub fn set_event_disabled(
    disabled_events: &mut DisabledEvents,
    actor: usize,
    state: Option<&str>,
    event: &str,
    disabled: bool,
)
    requires
        old(disabled_events).wf(),
    ensures
        final(disabled_events).wf(),
        forall|a: usize, s: Seq<char>, e: Seq<char>|
            #[trigger] final(disabled_events).holds(a, s, e) == if a == actor && s == scope_state(state)
                && e == lower(event@) {
                disabled
            } else {
                old(disabled_events).holds(a, s, e)
            },
{
    let (actor, key_state) = event_key(actor, state);
    proof {
        lemma_lower_idempotent(event@);
    }
    let event = to_ascii_lowercase(event);
    proof {
        if let Some(s) = state {
            lemma_lower_idempotent(s@);
        } else {
            assert(lower(Seq::<char>::empty()) =~= Seq::<char>::empty());
        }
    }
    match find_scope(disabled_events, actor, &key_state) {
        Some(i) => {
            let ghost old_scopes = disabled_events.scopes@;
            let mut scope = disabled_events.scopes.remove(i);
            let found = find_event(&scope.events, &event);
            let ghost old_events = scope.events@;
            assert(old_events == old_scopes[i as int].events@);
            if disabled {
                if found.is_none() {
                    scope.events.push(event);
                }
            } else {
                if let Some(k) = found {
                    scope.events.remove(k);
                }
            }
            disabled_events.scopes.insert(i, scope);
            proof {
                let scopes = disabled_events.scopes@;
                assert(forall|j: int| 0 <= j < scopes.len() && j != i ==> scopes[j] == old_scopes[j]);
                assert forall|j: int, k: int|
                    0 <= j < scopes.len() && 0 <= k < scopes[j].events@.len() implies lower(
                        #[trigger] scopes[j].events@[k]@,
                    ) == scopes[j].events@[k]@ by {
                    if j != i {
                        assert(scopes[j] == old_scopes[j]);
                    } else if disabled {
                        if k < old_events.len() {
                            assert(scopes[j].events@[k] == old_events[k]);
                        }
                    } else if let Some(kk) = found {
                        assert(scopes[j].events@ == old_events.remove(kk as int));
                        if k < kk {
                            assert(scopes[j].events@[k] == old_events[k]);
                        } else {
                            assert(scopes[j].events@[k] == old_events[k + 1]);
                        }
                    } else {
                        assert(scopes[j].events@[k] == old_events[k]);
                    }
                }
                if !disabled && found is Some {
                    assert(scopes[i as int].events@ == old_events.remove(found->0 as int));
                }
                assert forall|a: usize, s: Seq<char>, e: Seq<char>|
                    #[trigger] disabled_events.holds(a, s, e) == if a == actor && s == key_state@ && e
                        == event@ {
                        disabled
                    } else {
                        old(disabled_events).holds(a, s, e)
                    } by {
                    if disabled_events.holds(a, s, e) {
                        let (x, k) = choose|x: int, k: int|
                            0 <= x < scopes.len() && scopes[x].actor == a && scopes[x].state@ == s
                                && 0 <= k < scopes[x].events@.len() && #[trigger] scopes[x].events@[k]@
                                == e;
                        if x != i {
                            assert(old_scopes[x].events@[k]@ == e);
                        } else if !(a == actor && s == key_state@ && e == event@) {
                            if disabled {
                                assert(k < old_events.len());
                                assert(old_scopes[x].events@[k]@ == e);
                            } else if found is None {
                                assert(old_scopes[x].events@[k]@ == e);
                            } else {
                                let kk = found->0;
                                assert(scopes[x].events@ == old_events.remove(kk as int));
                                if k < kk {
                                    assert(old_events.remove(kk as int)[k] == old_events[k]);
                                    assert(old_scopes[x].events@[k]@ == e);
                                } else {
                                    assert(old_events.remove(kk as int)[k] == old_events[k + 1]);
                                    assert(old_scopes[x].events@[k + 1]@ == e);
                                }
                            }
                        }
                    }
                    if old(disabled_events).holds(a, s, e) && !(a == actor && s == key_state@ && e
                        == event@) {
                        let (x, k) = choose|x: int, k: int|
                            0 <= x < old_scopes.len() && old_scopes[x].actor == a && old_scopes[x].state@
                                == s && 0 <= k < old_scopes[x].events@.len()
                                && #[trigger] old_scopes[x].events@[k]@ == e;
                        if x != i {
                            assert(scopes[x].events@[k]@ == e);
                        } else if disabled || found is None {
                            assert(scopes[x].events@[k]@ == e);
                        } else {
                            let kk = found->0;
                            assert(scopes[x].events@ == old_events.remove(kk as int));
                            if k < kk {
                                assert(old_events.remove(kk as int)[k] == old_events[k]);
                                assert(scopes[x].events@[k]@ == e);
                            } else {
                                assert(k != kk);
                                assert(old_events.remove(kk as int)[k - 1] == old_events[k]);
                                assert(scopes[x].events@[k - 1]@ == e);
                            }
                        }
                    }
                    if a == actor && s == key_state@ && e == event@ && disabled {
                        if found is None {
                            assert(scopes[i as int].events@[old_events.len() as int]@ == e);
                        } else {
                            let kk = found->0;
                            assert(scopes[i as int].events@[kk as int]@ == e);
                        }
                    }
                }
            }
        },
        None => {
            if disabled {
                let mut events: Vec<String> = Vec::new();
                events.push(event);
                disabled_events.scopes.push(DisabledScope { actor, state: key_state, events });
                proof {
                    let scopes = disabled_events.scopes@;
                    let n = scopes.len() - 1;
                    assert forall|a: usize, s: Seq<char>, e: Seq<char>|
                        #[trigger] disabled_events.holds(a, s, e) == if a == actor && s
                            == key_state@ && e == event@ {
                            disabled
                        } else {
                            old(disabled_events).holds(a, s, e)
                        } by {
                        if disabled_events.holds(a, s, e) {
                            let (x, k) = choose|x: int, k: int|
                                0 <= x < scopes.len() && scopes[x].actor == a && scopes[x].state@
                                    == s && 0 <= k < scopes[x].events@.len()
                                    && #[trigger] scopes[x].events@[k]@ == e;
                            if x < n {
                                assert(old(disabled_events).scopes@[x].events@[k]@ == e);
                            }
                        }
                        if old(disabled_events).holds(a, s, e) {
                            let (x, k) = choose|x: int, k: int|
                                0 <= x < old(disabled_events).scopes@.len()
                                    && old(disabled_events).scopes@[x].actor == a && old(
                                    disabled_events,
                                ).scopes@[x].state@ == s && 0 <= k < old(
                                    disabled_events,
                                ).scopes@[x].events@.len() && #[trigger] old(
                                    disabled_events,
                                ).scopes@[x].events@[k]@ == e;
                            assert(scopes[x].events@[k]@ == e);
                        }
                        if a == actor && s == key_state@ && e == event@ {
                            assert(scopes[n].events@[0]@ == e);
                        }
                    }
                }
            }
        },
    }
}

/// Whether `event` is disabled for `actor` in `state`, ignoring ASCII case.
pub fn event_disabled(
    disabled_events: &DisabledEvents,
    actor: usize,
    state: Option<&str>,
    event: &str,
) -> (r: bool)
    requires
        disabled_events.wf(),
    ensures
        r == disabled_events.holds(actor, scope_state(state), lower(event@)),
{
    let (actor, key_state) = event_key(actor, state);
    let event = to_ascii_lowercase(event);
    match find_scope(disabled_events, actor, &key_state) {
        Some(i) => {
            let found = find_event(&disabled_events.scopes[i].events, &event);
            proof {
                if disabled_events.holds(actor, key_state@, event@) {
                    let (x, k) = choose|x: int, k: int|
                        0 <= x < disabled_events.scopes@.len() && disabled_events.scopes@[x].actor
                            == actor && disabled_events.scopes@[x].state@ == key_state@ && 0 <= k
                            < disabled_events.scopes@[x].events@.len()
                            && #[trigger] disabled_events.scopes@[x].events@[k]@ == event@;
                    assert(x == i);
                }
            }
            found.is_some()
        },
        None => false,
    }
}

} // verus!
