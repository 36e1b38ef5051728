use vstd::prelude::*;
use std::collections::HashMap;

use crate::distance::Distance;

verus! {

broadcast use vstd::std_specs::hash::group_hash_axioms;

/// A total, byte-indexed deterministic automaton: for every state and every
/// byte value there is a successor state, and every state carries a
/// [`Distance`]. Immutable once built.
pub struct DFA {
    transitions: Vec<u32>,
    distances: Vec<Distance>,
    initial_state: u32,
}

impl DFA {
    /// The flattened transition table: state `s` on byte `b` is entry
    /// `s * 256 + b`.
    pub closed spec fn spec_transitions(self) -> Seq<u32> {
        self.transitions@
    }

    /// The per-state distance table.
    pub closed spec fn spec_distances(self) -> Seq<Distance> {
        self.distances@
    }

    /// The initial state id.
    pub closed spec fn spec_initial_state(self) -> u32 {
        self.initial_state
    }

    /// Number of states.
    pub open spec fn spec_num_states(self) -> nat {
        self.spec_distances().len()
    }

    /// Well-formedness: the transition table has one 256-entry row per state,
    /// every entry is a valid state id, and the initial state is valid.
    pub open spec fn wf(self) -> bool {
        &&& self.spec_transitions().len() == 256 * self.spec_num_states()
        &&& forall|i: int|
            0 <= i < self.spec_transitions().len() ==> ((#[trigger] self.spec_transitions()[i])
                as nat) < self.spec_num_states()
        &&& (self.spec_initial_state() as nat) < self.spec_num_states()
    }

    /// The distance recorded for a state.
    pub open spec fn spec_distance(self, state: u32) -> Distance {
        self.spec_distances()[state as int]
    }

    /// Successor of `state` on byte `b`.
    pub open spec fn spec_transition(self, state: u32, b: u8) -> u32 {
        self.spec_transitions()[state * 256 + b]
    }

    /// State reached from `state` after consuming `input` byte by byte.
    pub open spec fn spec_run(self, state: u32, input: Seq<u8>) -> u32
        decreases input.len(),
    {
        if input.len() == 0 {
            state
        } else {
            self.spec_run(self.spec_transition(state, input[0]), input.drop_first())
        }
    }

    /// Distance of the state reached from the initial state on `input`.
    pub open spec fn spec_eval(self, input: Seq<u8>) -> Distance {
        self.spec_distance(self.spec_run(self.spec_initial_state(), input))
    }

    /// Returns the initial state.
    pub fn initial_state(&self) -> (r: u32)
        ensures
            r == self.spec_initial_state(),
            self.wf() ==> (r as nat) < self.spec_num_states(),
    {
        self.initial_state
    }

    /// Returns the output distance associated to the given state.
    pub fn distance(&self, state_id: u32) -> (r: Distance)
        requires
            (state_id as nat) < self.spec_num_states(),
        ensures
            r == self.spec_distance(state_id),
    {
        self.distances[state_id as usize]
    }

    /// Returns the number of states in the `DFA`.
    pub fn num_states(&self) -> (r: usize)
        ensures
            r == self.spec_num_states(),
    {
        self.distances.len()
    }

    /// Returns the destination state reached after consuming a given byte.
    /// Total: defined for every in-range state and every byte value.
    pub fn transition(&self, from_state_id: u32, b: u8) -> (r: u32)
        requires
            self.wf(),
            (from_state_id as nat) < self.spec_num_states(),
        ensures
            r == self.spec_transition(from_state_id, b),
            (r as nat) < self.spec_num_states(),
    {
        proof {
            vstd::std_specs::vec::axiom_spec_len(&self.transitions);
            assert(from_state_id * 256 + b < self.transitions@.len());
        }
        self.transitions[(from_state_id as usize) * 256 + (b as usize)]
    }

    /// Runs the automaton over `text` from the initial state and returns the
    /// distance of the final state.
    pub fn eval(&self, text: &[u8]) -> (r: Distance)
        requires
            self.wf(),
        ensures
            r == self.spec_eval(text@),
    {
        let mut state = self.initial_state();
        let n = text.len();
        proof {
            assert(text@.skip(0) =~= text@);
        }
        for i in 0..n
            invariant
                n == text@.len(),
                self.wf(),
                (state as nat) < self.spec_num_states(),
                self.spec_run(self.spec_initial_state(), text@) == self.spec_run(
                    state,
                    text@.skip(i as int),
                ),
        {
            proof {
                assert(text@.skip(i as int).len() > 0);
                assert(text@.skip(i as int)[0] == text@[i as int]);
                assert(text@.skip(i as int).drop_first() =~= text@.skip(i as int + 1));
            }
            state = self.transition(state, text[i]);
        }
        proof {
            assert(text@.skip(n as int) =~= Seq::<u8>::empty());
        }
        self.distance(state)
    }
}

/// Totality of a well-formed automaton: from any valid state, any byte leads
/// to a valid state.
pub proof fn lemma_transition_total(d: DFA, state: u32, b: u8)
    requires
        d.wf(),
        (state as nat) < d.spec_num_states(),
    ensures
        (d.spec_transition(state, b) as nat) < d.spec_num_states(),
{
    assert(0 <= state * 256 + b < d.transitions@.len());
}

/// Determinism of evaluation: the result of `eval` is a function of the
/// automaton and the input alone, so two runs on the same input agree.
pub proof fn lemma_eval_deterministic(d: DFA, input: Seq<u8>, r1: Distance, r2: Distance)
    requires
        r1 == d.spec_eval(input),
        r2 == d.spec_eval(input),
    ensures
        r1 == r2,
{
}

/// Builder-internal identity of a state: either a state id of the caller's
/// coarse automaton, or a synthesized state part-way through a multi-byte
/// sequence on the default path, `remaining` bytes before the target.
#[derive(Debug, Clone, Copy)]
enum Utf8State {
    Original(u32),
    Predecessor(u32, u8),
}

/// Interning key of a caller (original) state id.
pub open spec fn key_original(id: u32) -> u64 {
    ((id as int) * 4) as u64
}

/// Interning key of the synthesized predecessor state that is `remaining`
/// default steps away from the state with numeric id `target`.
pub open spec fn key_predecessor(target: u32, remaining: u8) -> u64 {
    ((target as int) * 4 + (remaining as int)) as u64
}

spec fn utf8_key(s: Utf8State) -> u64 {
    match s {
        Utf8State::Original(id) => key_original(id),
        Utf8State::Predecessor(target, remaining) => key_predecessor(target, remaining),
    }
}

spec fn utf8_key_wf(s: Utf8State) -> bool {
    match s {
        Utf8State::Original(_) => true,
        Utf8State::Predecessor(_, remaining) => 1 <= remaining <= 3,
    }
}

/// The interning map after looking up `k`: unchanged if present, else
/// extended with `k` bound to the next dense id `n`.
pub open spec fn intern_map(m: Map<u64, u32>, n: u32, k: u64) -> Map<u64, u32> {
    if m.contains_key(k) {
        m
    } else {
        m.insert(k, n)
    }
}

/// The id that interning `k` resolves to when `n` is the next dense id.
pub open spec fn intern_id(m: Map<u64, u32>, n: u32, k: u64) -> u32 {
    if m.contains_key(k) {
        m[k]
    } else {
        n
    }
}

/// How many states interning `k` allocates: none if already present.
pub open spec fn intern_growth(m: Map<u64, u32>, k: u64) -> u32 {
    if m.contains_key(k) {
        0
    } else {
        1
    }
}

/// One row of 256 zero placeholder entries, as appended by allocation.
pub open spec fn zero_row() -> Seq<u32> {
    Seq::new(256, |i: int| 0u32)
}

/// Entry of the flattened transition table for state `s` on byte `b`.
pub open spec fn entry(t: Seq<u32>, s: int, b: int) -> u32 {
    t[s * 256 + b]
}

/// Sets `dest[start..end]` to `val`, leaving everything else unchanged.
fn fill(dest: &mut Vec<u32>, start: usize, end: usize, val: u32)
    requires
        start <= end <= old(dest)@.len(),
    ensures
        final(dest)@.len() == old(dest)@.len(),
        forall|j: int| start <= j < end ==> final(dest)@[j] == val,
        forall|j: int|
            0 <= j < final(dest)@.len() && !(start <= j < end) ==> final(dest)@[j] == old(
                dest,
            )@[j],
{
    let mut j = start;
    while j < end
        invariant
            start <= j <= end <= dest@.len(),
            dest@.len() == old(dest)@.len(),
            forall|i: int| start <= i < j ==> dest@[i] == val,
            forall|i: int| 0 <= i < dest@.len() && !(start <= i < j) ==> dest@[i] == old(dest)@[i],
        decreases end - j,
    {
        dest[j] = val;
        j = j + 1;
    }
}

/// Incremental builder of a [`DFA`]: interns encoded-state keys to dense
/// numeric ids and grows the parallel distance and transition tables.
pub struct DFABuilder {
    index: HashMap<u64, u32>,
    distances: Vec<Distance>,
    transitions: Vec<u32>,
    initial_state: u32,
    num_states: u32,
}

impl DFABuilder {
    /// The interning map from encoded keys to numeric state ids.
    pub closed spec fn spec_index(self) -> Map<u64, u32> {
        self.index@
    }

    /// Number of allocated states.
    pub closed spec fn spec_num_states(self) -> u32 {
        self.num_states
    }

    /// The per-state distance table.
    pub closed spec fn spec_distances(self) -> Seq<Distance> {
        self.distances@
    }

    /// The flattened transition table: state `s` on byte `b` is entry
    /// `s * 256 + b`.
    pub closed spec fn spec_transitions(self) -> Seq<u32> {
        self.transitions@
    }

    /// The recorded initial state id.
    pub closed spec fn spec_initial_state(self) -> u32 {
        self.initial_state
    }

    /// Builder well-formedness: tables are index-aligned, every table entry
    /// and every interned id is a valid state id, distinct keys intern to
    /// distinct ids, and the initial state is valid once any state exists.
    pub open spec fn inv(self) -> bool {
        &&& self.spec_distances().len() == self.spec_num_states() as nat
        &&& self.spec_transitions().len() == 256 * (self.spec_num_states() as nat)
        &&& forall|i: int|
            0 <= i < self.spec_transitions().len() ==> (#[trigger] self.spec_transitions()[i])
                < self.spec_num_states()
        &&& forall|k: u64|
            self.spec_index().contains_key(k) ==> (#[trigger] self.spec_index()[k])
                < self.spec_num_states()
        &&& forall|k1: u64, k2: u64|
            self.spec_index().contains_key(k1) && self.spec_index().contains_key(k2) && k1 != k2
                ==> #[trigger] self.spec_index()[k1] != #[trigger] self.spec_index()[k2]
        &&& (self.spec_num_states() == 0 ==> self.spec_initial_state() == 0)
        &&& (self.spec_num_states() > 0 ==> self.spec_initial_state() < self.spec_num_states())
    }

    /// Room for `k` more states within the machine's limits.
    pub open spec fn can_add(self, k: nat) -> bool {
        &&& self.spec_num_states() + k <= u32::MAX
        &&& 256 * (self.spec_num_states() + k) <= usize::MAX
    }

    /// Creates an empty builder, preallocating for `capacity` states.
    pub fn with_capacity(capacity: usize) -> (r: DFABuilder)
        ensures
            r.inv(),
            r.spec_num_states() == 0,
            r.spec_index() == Map::<u64, u32>::empty(),
            r.spec_distances() == Seq::<Distance>::empty(),
            r.spec_transitions() == Seq::<u32>::empty(),
            r.spec_initial_state() == 0,
    {
        DFABuilder {
            index: HashMap::with_capacity(capacity),
            distances: Vec::with_capacity(capacity),
            transitions: Vec::with_capacity(capacity),
            initial_state: 0u32,
            num_states: 0u32,
        }
    }

    /// Appends one new state: sentinel distance, all-zero transition row.
    fn allocate(&mut self) -> (r: u32)
        requires
            old(self).inv(),
            old(self).can_add(1),
        ensures
            final(self).inv(),
            r == old(self).spec_num_states(),
            final(self).spec_num_states() == old(self).spec_num_states() + 1,
            final(self).spec_index() == old(self).spec_index(),
            final(self).spec_initial_state() == old(self).spec_initial_state(),
            final(self).spec_distances() == old(self).spec_distances().push(
                Distance::AtLeast(255),
            ),
            final(self).spec_transitions() == old(self).spec_transitions() + zero_row(),
    {
        let new_state = self.num_states;
        self.num_states = self.num_states + 1;
        self.distances.push(Distance::AtLeast(255));
        let mut j: usize = 0;
        while j < 256
            invariant
                j <= 256,
                self.transitions@ == old(self).transitions@ + Seq::new(j as nat, |i: int| 0u32),
                self.num_states == old(self).num_states + 1,
                self.distances@ == old(self).distances@.push(Distance::AtLeast(255)),
                self.index@ == old(self).index@,
                self.initial_state == old(self).initial_state,
            decreases 256 - j,
        {
            self.transitions.push(0u32);
            proof {
                assert(self.transitions@ =~= old(self).transitions@ + Seq::new(
                    (j + 1) as nat,
                    |i: int| 0u32,
                ));
            }
            j = j + 1;
        }
        proof {
            assert(self.transitions@ =~= old(self).transitions@ + zero_row());
            assert forall|i: int|
                0 <= i < self.spec_transitions().len() implies (#[trigger] self.spec_transitions()[i])
                < self.spec_num_states() by {
                if i < old(self).transitions@.len() {
                    assert(self.spec_transitions()[i] == old(self).spec_transitions()[i]);
                } else {
                    assert(self.spec_transitions()[i] == 0u32);
                }
            }
            assert forall|k: u64|
                self.spec_index().contains_key(k) implies (#[trigger] self.spec_index()[k])
                < self.spec_num_states() by {
                assert(old(self).spec_index()[k] < old(self).spec_num_states());
            }
            assert forall|k1: u64, k2: u64|
                self.spec_index().contains_key(k1) && self.spec_index().contains_key(k2) && k1
                    != k2 implies #[trigger] self.spec_index()[k1] != #[trigger] self.spec_index()[k2] by {
                assert(old(self).spec_index()[k1] != old(self).spec_index()[k2]);
            }
        }
        new_state
    }

    /// Returns the id already interned for `state`, or allocates a fresh one
    /// and records the mapping: the single deduplication point.
    fn get_or_allocate(&mut self, state: Utf8State) -> (r: u32)
        requires
            old(self).inv(),
            old(self).can_add(1),
            utf8_key_wf(state),
        ensures
            final(self).inv(),
            r == intern_id(old(self).spec_index(), old(self).spec_num_states(), utf8_key(state)),
            final(self).spec_index() == intern_map(
                old(self).spec_index(),
                old(self).spec_num_states(),
                utf8_key(state),
            ),
            final(self).spec_num_states() == old(self).spec_num_states() + intern_growth(
                old(self).spec_index(),
                utf8_key(state),
            ),
            final(self).spec_initial_state() == old(self).spec_initial_state(),
            final(self).spec_distances() == (if old(self).spec_index().contains_key(
                utf8_key(state),
            ) {
                old(self).spec_distances()
            } else {
                old(self).spec_distances().push(Distance::AtLeast(255))
            }),
            final(self).spec_transitions() == (if old(self).spec_index().contains_key(
                utf8_key(state),
            ) {
                old(self).spec_transitions()
            } else {
                old(self).spec_transitions() + zero_row()
            }),
            r < final(self).spec_num_states(),
    {
        let key: u64 = match state {
            Utf8State::Original(id) => (id as u64) * 4,
            Utf8State::Predecessor(target, remaining) => (target as u64) * 4 + (remaining as u64),
        };
        if let Some(existing) = self.index.get(&key) {
            return *existing;
        }
        let new_state = self.allocate();
        self.index.insert(key, new_state);
        new_state
    }

    /// Interns `Original(initial_state)` and records it as the automaton's
    /// entry state; legal before or after the matching `add_state` call.
    pub fn set_initial_state(&mut self, initial_state: u32)
        requires
            old(self).inv(),
            old(self).can_add(1),
        ensures
            final(self).inv(),
            final(self).spec_initial_state() == intern_id(
                old(self).spec_index(),
                old(self).spec_num_states(),
                key_original(initial_state),
            ),
            final(self).spec_index() == intern_map(
                old(self).spec_index(),
                old(self).spec_num_states(),
                key_original(initial_state),
            ),
            final(self).spec_num_states() == old(self).spec_num_states() + intern_growth(
                old(self).spec_index(),
                key_original(initial_state),
            ),
            final(self).spec_distances() == (if old(self).spec_index().contains_key(
                key_original(initial_state),
            ) {
                old(self).spec_distances()
            } else {
                old(self).spec_distances().push(Distance::AtLeast(255))
            }),
            final(self).spec_transitions() == (if old(self).spec_index().contains_key(
                key_original(initial_state),
            ) {
                old(self).spec_transitions()
            } else {
                old(self).spec_transitions() + zero_row()
            }),
            final(self).spec_initial_state() < final(self).spec_num_states(),
    {
        let state_id_decoded = self.get_or_allocate(Utf8State::Original(initial_state));
        self.initial_state = state_id_decoded;
    }

    /// Registers caller state `state` with its distance and default
    /// successor: interns both ids, synthesizes (shared, interned) predecessor
    /// chain states for multi-byte default paths, and gives `state` a total
    /// 256-entry row keyed by UTF-8 lead-byte class. Returns the handle used
    /// to add explicit character transitions from `state`.
    #[verifier::rlimit(100)]
    pub fn add_state(
        &mut self,
        state: u32,
        distance: Distance,
        default_successor_orig: u32,
    ) -> (r: DFAStateBuilder)
        requires
            old(self).inv(),
            old(self).can_add(5),
        ensures
            final(self).inv(),
            add_state_rel(*old(self), *final(self), state, distance, default_successor_orig, r),
            r.wf(*final(self)),
            old(self).spec_num_states() <= final(self).spec_num_states(),
            final(self).spec_num_states() <= old(self).spec_num_states() + 5,
            final(self).spec_initial_state() == old(self).spec_initial_state(),
            forall|k: u64|
                old(self).spec_index().contains_key(k) ==> final(self).spec_index().contains_key(k)
                    && final(self).spec_index()[k] == old(self).spec_index()[k],
    {
        let ghost pre = *old(self);
        let state_id = self.get_or_allocate(Utf8State::Original(state));
        let ghost b1 = *self;
        self.distances[state_id as usize] = distance;
        let ghost b1d = *self;
        let default_successor_id = self.get_or_allocate(
            Utf8State::Original(default_successor_orig),
        );
        let ghost b2 = *self;
        let p0 = default_successor_id;
        let p1 = self.get_or_allocate(Utf8State::Predecessor(default_successor_id, 1));
        let ghost b3 = *self;
        fill(&mut self.transitions, (p1 as usize) * 256, (p1 as usize) * 256 + 256, p0);
        let ghost b3f = *self;
        let p2 = self.get_or_allocate(Utf8State::Predecessor(default_successor_id, 2));
        let ghost b4 = *self;
        fill(&mut self.transitions, (p2 as usize) * 256, (p2 as usize) * 256 + 256, p1);
        let ghost b4f = *self;
        let p3 = self.get_or_allocate(Utf8State::Predecessor(default_successor_id, 3));
        let ghost b5 = *self;
        fill(&mut self.transitions, (p3 as usize) * 256, (p3 as usize) * 256 + 256, p2);
        let ghost b5f = *self;
        let base = (state_id as usize) * 256;
        fill(&mut self.transitions, base, base + 192, p0);
        fill(&mut self.transitions, base + 192, base + 224, p1);
        fill(&mut self.transitions, base + 224, base + 240, p2);
        fill(&mut self.transitions, base + 240, base + 256, p3);
        let r = DFAStateBuilder { state_id, default_successor: [p0, p1, p2, p3] };
        proof {
            let m0 = pre.spec_index();
            let n0 = pre.spec_num_states();
            let k1 = key_original(state);
            let sid = state_id;
            let m1 = intern_map(m0, n0, k1);
            let n1 = (n0 + intern_growth(m0, k1)) as u32;
            let k2 = key_original(default_successor_orig);
            let did = default_successor_id;
            let m2 = intern_map(m1, n1, k2);
            let n2 = (n1 + intern_growth(m1, k2)) as u32;
            let k3 = key_predecessor(did, 1);
            let m3 = intern_map(m2, n2, k3);
            let n3 = (n2 + intern_growth(m2, k3)) as u32;
            let k4 = key_predecessor(did, 2);
            let m4 = intern_map(m3, n3, k4);
            let n4 = (n3 + intern_growth(m3, k4)) as u32;
            let k5 = key_predecessor(did, 3);
            let m5 = intern_map(m4, n4, k5);
            let n5 = (n4 + intern_growth(m4, k5)) as u32;

            // The five keys resolve as the interning chain says, and stay put.
            assert(b1.spec_index() == m1 && b1.spec_num_states() == n1);
            assert(b1d.spec_index() == m1 && b1d.spec_num_states() == n1);
            assert(b2.spec_index() == m2 && b2.spec_num_states() == n2);
            assert(b3.spec_index() == m3 && b3.spec_num_states() == n3);
            assert(b3f.spec_index() == m3 && b3f.spec_num_states() == n3);
            assert(b4.spec_index() == m4 && b4.spec_num_states() == n4);
            assert(b4f.spec_index() == m4 && b4f.spec_num_states() == n4);
            assert(b5.spec_index() == m5 && b5.spec_num_states() == n5);
            assert(self.spec_index() == m5 && self.spec_num_states() == n5);

            // Key arithmetic: original keys and predecessor keys never collide.
            assert(k1 != k3 && k1 != k4 && k1 != k5);
            assert(k2 != k3 && k2 != k4 && k2 != k5);
            assert(k3 != k4 && k3 != k5 && k4 != k5);

            // Each interned id is the final map's value for its key.
            assert(m5.contains_key(k1) && m5[k1] == sid);
            assert(m5.contains_key(k2) && m5[k2] == did);
            assert(m5.contains_key(k3) && m5[k3] == p1);
            assert(m5.contains_key(k4) && m5[k4] == p2);
            assert(m5.contains_key(k5) && m5[k5] == p3);

            // Distinct ids for the predecessor chain and the state's own row.
            assert(sid != p1 && sid != p2 && sid != p3);
            assert(did != p1 && did != p2 && did != p3);
            assert(p1 != p2 && p1 != p3 && p2 != p3);
            assert(sid < n5 && did < n5 && p1 < n5 && p2 < n5 && p3 < n5);

            // Distances: one update at `sid` over the sentinel-padded table.
            assert(self.spec_distances() =~= pad_distances(pre.spec_distances(), n5 as nat).update(
                sid as int,
                distance,
            ));

            // Transition table, entry by entry.
            assert(self.spec_transitions().len() == 256 * (n5 as nat));
            assert forall|sb: int, b: int|
                0 <= sb < n5 && 0 <= b < 256 implies #[trigger] entry(self.spec_transitions(), sb, b)
                == (if sb == sid {
                default_row_entry(b, did, p1, p2, p3)
            } else if sb == p1 {
                did
            } else if sb == p2 {
                p1
            } else if sb == p3 {
                p2
            } else if sb < pre.spec_num_states() {
                entry(pre.spec_transitions(), sb, b)
            } else {
                0u32
            }) by {
                let j = sb * 256 + b;
                if sb == sid {
                    assert(entry(self.spec_transitions(), sb, b) == default_row_entry(
                        b,
                        did,
                        p1,
                        p2,
                        p3,
                    ));
                } else {
                    assert(entry(self.spec_transitions(), sb, b) == entry(
                        b5f.spec_transitions(),
                        sb,
                        b,
                    ));
                    if sb == p1 {
                        assert(entry(b5f.spec_transitions(), sb, b) == entry(
                            b3f.spec_transitions(),
                            sb,
                            b,
                        ));
                        assert(entry(b3f.spec_transitions(), sb, b) == did);
                    } else if sb == p2 {
                        assert(entry(b5f.spec_transitions(), sb, b) == entry(
                            b4f.spec_transitions(),
                            sb,
                            b,
                        ));
                        assert(entry(b4f.spec_transitions(), sb, b) == p1);
                    } else if sb == p3 {
                        assert(entry(b5f.spec_transitions(), sb, b) == p2);
                    } else if sb < pre.spec_num_states() {
                        assert(entry(b5f.spec_transitions(), sb, b) == entry(
                            pre.spec_transitions(),
                            sb,
                            b,
                        ));
                    } else {
                        assert(sb == did && did >= pre.spec_num_states());
                        assert(entry(b5f.spec_transitions(), sb, b) == 0u32);
                    }
                }
            }

            // Well-formedness of the grown builder.
            assert forall|k: u64|
                self.spec_index().contains_key(k) implies (#[trigger] self.spec_index()[k])
                < self.spec_num_states() by {
                assert(b5.spec_index()[k] < b5.spec_num_states());
            }
            assert forall|kk1: u64, kk2: u64|
                self.spec_index().contains_key(kk1) && self.spec_index().contains_key(kk2) && kk1
                    != kk2 implies #[trigger] self.spec_index()[kk1]
                != #[trigger] self.spec_index()[kk2] by {
                assert(b5.spec_index()[kk1] != b5.spec_index()[kk2]);
            }
            assert(self.inv());
            assert(add_state_rel(pre, *self, state, distance, default_successor_orig, r));
        }
        r
    }

    /// Freezes the tables into an immutable [`DFA`]. If at least one state
    /// was registered, the result is well-formed and behaves exactly as the
    /// builder's tables say.
    pub fn build(self) -> (r: DFA)
        requires
            self.inv(),
        ensures
            self.spec_num_states() > 0 ==> r.wf(),
            r.spec_num_states() == self.spec_num_states() as nat,
            r.spec_initial_state() == self.spec_initial_state(),
            r.spec_transitions() == self.spec_transitions(),
            r.spec_distances() == self.spec_distances(),
    {
        DFA { transitions: self.transitions, distances: self.distances, initial_state: self.initial_state }
    }
}

/// Padded distance table: `d` extended with the sentinel distance up to
/// length `n`.
pub open spec fn pad_distances(d: Seq<Distance>, n: nat) -> Seq<Distance> {
    d + Seq::new((n - d.len()) as nat, |i: int| Distance::AtLeast(255))
}

/// The default transition for byte `b` out of a freshly registered state,
/// chosen by UTF-8 lead-byte class: one-byte characters (and continuation or
/// invalid bytes) go straight to the default successor, multi-byte lead bytes
/// enter the predecessor chain at the matching depth.
pub open spec fn default_row_entry(b: int, did: u32, p1: u32, p2: u32, p3: u32) -> u32 {
    if b < 192 {
        did
    } else if b < 224 {
        p1
    } else if b < 240 {
        p2
    } else {
        p3
    }
}

/// One row of 256 entries, all pointing at `v`.
pub open spec fn row_of(v: u32) -> Seq<u32> {
    Seq::new(256, |i: int| v)
}

/// The walk of `DFAStateBuilder::add_transition` over the leading bytes
/// `mid` of a character's encoding (all but the last byte), starting at
/// state `from` with table `t` and `n` allocated states. At each step the
/// expected default is the chain id at depth `mid.len()` (the bytes still to
/// come after the current one, plus the final byte). If the current entry
/// still is that default, a fresh state is allocated with its whole row
/// pointing at the default; otherwise the entry's existing state is reused.
/// Returns the table, the state count, and the state the last byte starts
/// from.
pub open spec fn walk_bytes(t: Seq<u32>, n: u32, from: u32, mid: Seq<u8>, defs: Seq<u32>) -> (
    Seq<u32>,
    u32,
    u32,
)
    decreases mid.len(),
{
    if mid.len() == 0 {
        (t, n, from)
    } else {
        let b = mid[0] as int;
        let dflt = defs[mid.len() as int];
        let cur = entry(t, from as int, b);
        if cur == dflt {
            let t1 = (t + row_of(dflt)).update((from as int) * 256 + b, n);
            walk_bytes(t1, (n + 1) as u32, n, mid.drop_first(), defs)
        } else {
            let t1 = t.update((from as int) * 256 + b, cur);
            walk_bytes(t1, n, cur, mid.drop_first(), defs)
        }
    }
}

/// Exact effect of [`DFAStateBuilder::add_transition`]: the walk over the
/// leading bytes, then interning of the destination, then the final byte's
/// edge to it.
pub open spec fn add_transition_rel(
    pre: DFABuilder,
    post: DFABuilder,
    h: DFAStateBuilder,
    chr: char,
    to_state_id: u32,
) -> bool {
    let bytes = vstd::utf8::encode_scalar(chr as u32);
    let mid = bytes.take(bytes.len() - 1);
    let last = bytes[bytes.len() - 1] as int;
    let w = walk_bytes(
        pre.spec_transitions(),
        pre.spec_num_states(),
        h.spec_state_id(),
        mid,
        h.spec_defaults(),
    );
    let kdest = key_original(to_state_id);
    let dest = intern_id(pre.spec_index(), w.1, kdest);
    let grown = (w.1 + intern_growth(pre.spec_index(), kdest)) as u32;
    let t2 = if pre.spec_index().contains_key(kdest) {
        w.0
    } else {
        w.0 + zero_row()
    };
    &&& post.spec_index() == intern_map(pre.spec_index(), w.1, kdest)
    &&& post.spec_num_states() == grown
    &&& post.spec_initial_state() == pre.spec_initial_state()
    &&& post.spec_distances() == pad_distances(pre.spec_distances(), grown as nat)
    &&& post.spec_transitions() == t2.update((w.2 as int) * 256 + last, dest)
}

/// Exact effect of [`DFABuilder::add_state`]: interning of the five keys in
/// order (the caller state, its default successor, and the three predecessor
/// depths keyed by the default successor's numeric id), the distance write,
/// the constant predecessor rows, the lead-byte-classed row of the caller
/// state, and the returned handle's fields.
pub open spec fn add_state_rel(
    pre: DFABuilder,
    post: DFABuilder,
    state: u32,
    distance: Distance,
    default_successor_orig: u32,
    r: DFAStateBuilder,
) -> bool {
    let k1 = key_original(state);
    let sid = intern_id(pre.spec_index(), pre.spec_num_states(), k1);
    let m1 = intern_map(pre.spec_index(), pre.spec_num_states(), k1);
    let n1 = (pre.spec_num_states() + intern_growth(pre.spec_index(), k1)) as u32;
    let k2 = key_original(default_successor_orig);
    let did = intern_id(m1, n1, k2);
    let m2 = intern_map(m1, n1, k2);
    let n2 = (n1 + intern_growth(m1, k2)) as u32;
    let k3 = key_predecessor(did, 1);
    let p1 = intern_id(m2, n2, k3);
    let m3 = intern_map(m2, n2, k3);
    let n3 = (n2 + intern_growth(m2, k3)) as u32;
    let k4 = key_predecessor(did, 2);
    let p2 = intern_id(m3, n3, k4);
    let m4 = intern_map(m3, n3, k4);
    let n4 = (n3 + intern_growth(m3, k4)) as u32;
    let k5 = key_predecessor(did, 3);
    let p3 = intern_id(m4, n4, k5);
    let m5 = intern_map(m4, n4, k5);
    let n5 = (n4 + intern_growth(m4, k5)) as u32;
    &&& post.spec_index() == m5
    &&& post.spec_num_states() == n5
    &&& post.spec_initial_state() == pre.spec_initial_state()
    &&& post.spec_distances() == pad_distances(pre.spec_distances(), n5 as nat).update(
        sid as int,
        distance,
    )
    &&& post.spec_transitions().len() == 256 * (n5 as nat)
    &&& (forall|sb: int, b: int|
        0 <= sb < n5 && 0 <= b < 256 ==> #[trigger] entry(post.spec_transitions(), sb, b) == (
        if sb == sid {
            default_row_entry(b, did, p1, p2, p3)
        } else if sb == p1 {
            did
        } else if sb == p2 {
            p1
        } else if sb == p3 {
            p2
        } else if sb < pre.spec_num_states() {
            entry(pre.spec_transitions(), sb, b)
        } else {
            0u32
        }))
    &&& r.spec_state_id() == sid
    &&& r.spec_default_successor(0) == did
    &&& r.spec_default_successor(1) == p1
    &&& r.spec_default_successor(2) == p2
    &&& r.spec_default_successor(3) == p3
}

/// Short-lived handle bound to one registered caller state: carries its
/// numeric id and the four default-chain ids (default successor plus the
/// three predecessor depths) computed by `add_state`.
pub struct DFAStateBuilder {
    state_id: u32,
    default_successor: [u32; 4],
}

impl DFAStateBuilder {
    /// Numeric id of the state this handle is bound to.
    pub closed spec fn spec_state_id(self) -> u32 {
        self.state_id
    }

    /// The four default-chain ids, depth 0 (the default successor itself)
    /// through depth 3.
    pub closed spec fn spec_defaults(self) -> Seq<u32> {
        self.default_successor@
    }

    /// The default-chain id at depth `k`: depth 0 is the default successor
    /// itself, depth `k` the predecessor state `k` bytes before it.
    pub open spec fn spec_default_successor(self, k: int) -> u32 {
        self.spec_defaults()[k]
    }

    /// The handle's ids are valid states of builder `b`.
    pub open spec fn wf(self, b: DFABuilder) -> bool {
        &&& self.spec_state_id() < b.spec_num_states()
        &&& forall|k: int|
            0 <= k < 4 ==> #[trigger] self.spec_default_successor(k) < b.spec_num_states()
    }

    /// Single explicit edge: state `from_state_id` moves to `to_state_id` on
    /// byte `b`.
    fn add_transition_id(
        &self,
        dfa_builder: &mut DFABuilder,
        from_state_id: u32,
        b: u8,
        to_state_id: u32,
    )
        requires
            old(dfa_builder).inv(),
            from_state_id < old(dfa_builder).spec_num_states(),
            to_state_id < old(dfa_builder).spec_num_states(),
        ensures
            final(dfa_builder).inv(),
            final(dfa_builder).spec_transitions() == old(dfa_builder).spec_transitions().update(
                (from_state_id as int) * 256 + (b as int),
                to_state_id,
            ),
            final(dfa_builder).spec_index() == old(dfa_builder).spec_index(),
            final(dfa_builder).spec_num_states() == old(dfa_builder).spec_num_states(),
            final(dfa_builder).spec_distances() == old(dfa_builder).spec_distances(),
            final(dfa_builder).spec_initial_state() == old(dfa_builder).spec_initial_state(),
    {
        proof {
            vstd::std_specs::vec::axiom_spec_len(&dfa_builder.transitions);
            assert(from_state_id * 256 + b < dfa_builder.transitions@.len());
        }
        let idx = (from_state_id as usize) * 256 + (b as usize);
        dfa_builder.transitions[idx] = to_state_id;
        proof {
            assert forall|ii: int|
                0 <= ii < dfa_builder.spec_transitions().len() implies (
            #[trigger] dfa_builder.spec_transitions()[ii]) < dfa_builder.spec_num_states() by {
                if ii != idx {
                    assert(dfa_builder.spec_transitions()[ii] == old(
                        dfa_builder,
                    ).spec_transitions()[ii]);
                }
            }
            assert forall|k: u64|
                dfa_builder.spec_index().contains_key(k) implies (
            #[trigger] dfa_builder.spec_index()[k]) < dfa_builder.spec_num_states() by {
                assert(old(dfa_builder).spec_index()[k] < old(dfa_builder).spec_num_states());
            }
            assert forall|k1: u64, k2: u64|
                dfa_builder.spec_index().contains_key(k1) && dfa_builder.spec_index().contains_key(
                    k2,
                ) && k1 != k2 implies #[trigger] dfa_builder.spec_index()[k1]
                != #[trigger] dfa_builder.spec_index()[k2] by {
                assert(old(dfa_builder).spec_index()[k1] != old(dfa_builder).spec_index()[k2]);
            }
        }
    }

    /// Installs an explicit edge for one Unicode scalar out of the owning
    /// state, overriding the default path: walks the encoding's leading
    /// bytes, branching off the default chain into per-prefix intermediate
    /// states (freshly allocated the first time a prefix diverges, reused by
    /// later characters sharing it), then points the final byte at the
    /// interned destination.
    #[verifier::rlimit(60)]
    pub fn add_transition(&self, dfa_builder: &mut DFABuilder, chr: char, to_state_id: u32)
        requires
            old(dfa_builder).inv(),
            self.wf(*old(dfa_builder)),
            old(dfa_builder).can_add(4),
        ensures
            final(dfa_builder).inv(),
            self.wf(*final(dfa_builder)),
            add_transition_rel(*old(dfa_builder), *final(dfa_builder), *self, chr, to_state_id),
            old(dfa_builder).spec_num_states() <= final(dfa_builder).spec_num_states(),
            final(dfa_builder).spec_num_states() <= old(dfa_builder).spec_num_states() + 4,
            final(dfa_builder).spec_initial_state() == old(dfa_builder).spec_initial_state(),
            forall|k: u64|
                old(dfa_builder).spec_index().contains_key(k) ==> final(dfa_builder).spec_index().contains_key(k)
                    && final(dfa_builder).spec_index()[k] == old(dfa_builder).spec_index()[k],
    {
        let ghost pre = *old(dfa_builder);
        let ghost all_bytes = vstd::utf8::encode_scalar(chr as u32);
        let ghost mid = all_bytes.take(all_bytes.len() - 1);
        let ghost defs = self.spec_defaults();
        let bytes = crate::utf8::encode_char(chr);
        let len = bytes.len();
        let mut from_state_id_decoded = self.state_id;
        let mut i: usize = 0;
        proof {
            assert(mid.skip(0) =~= mid);
        }
        while i < len - 1
            invariant
                pre.inv(),
                pre.can_add(4),
                dfa_builder.inv(),
                self.wf(*dfa_builder),
                bytes@ == all_bytes,
                mid == all_bytes.take(all_bytes.len() - 1),
                1 <= len <= 4,
                len == all_bytes.len(),
                defs == self.spec_defaults(),
                i <= len - 1,
                from_state_id_decoded < dfa_builder.spec_num_states(),
                pre.spec_num_states() <= dfa_builder.spec_num_states() <= pre.spec_num_states()
                    + i,
                dfa_builder.spec_index() == pre.spec_index(),
                dfa_builder.spec_initial_state() == pre.spec_initial_state(),
                dfa_builder.spec_distances() == pad_distances(
                    pre.spec_distances(),
                    dfa_builder.spec_num_states() as nat,
                ),
                walk_bytes(
                    pre.spec_transitions(),
                    pre.spec_num_states(),
                    self.spec_state_id(),
                    mid,
                    defs,
                ) == walk_bytes(
                    dfa_builder.spec_transitions(),
                    dfa_builder.spec_num_states(),
                    from_state_id_decoded,
                    mid.skip(i as int),
                    defs,
                ),
            decreases len - 1 - i,
        {
            let ghost step_pre = *dfa_builder;
            let b = bytes[i];
            let remaining_num_bytes = len - i - 1;
            let default_successor = self.default_successor[remaining_num_bytes];
            proof {
                vstd::std_specs::vec::axiom_spec_len(&dfa_builder.transitions);
                assert(from_state_id_decoded * 256 + b < dfa_builder.transitions@.len());
                assert(mid.skip(i as int).len() == len - 1 - i);
                assert(mid.skip(i as int)[0] == all_bytes[i as int]);
            }
            let idx = (from_state_id_decoded as usize) * 256 + (b as usize);
            let mut intermediary_state_id_decoded: u32 = dfa_builder.transitions[idx];
            if intermediary_state_id_decoded == default_successor {
                intermediary_state_id_decoded = dfa_builder.allocate();
                proof {
                    vstd::std_specs::vec::axiom_spec_len(&dfa_builder.transitions);
                    assert((intermediary_state_id_decoded as int) * 256 + 256
                        <= dfa_builder.transitions@.len());
                }
                fill(
                    &mut dfa_builder.transitions,
                    (intermediary_state_id_decoded as usize) * 256,
                    (intermediary_state_id_decoded as usize) * 256 + 256,
                    default_successor,
                );
                proof {
                    assert(dfa_builder.spec_transitions() =~= step_pre.spec_transitions()
                        + row_of(default_successor));
                }
            }
            self.add_transition_id(dfa_builder, from_state_id_decoded, b, intermediary_state_id_decoded);
            from_state_id_decoded = intermediary_state_id_decoded;
            proof {
                assert(mid.skip(i as int).drop_first() =~= mid.skip(i as int + 1));
                assert(dfa_builder.spec_distances() =~= pad_distances(
                    pre.spec_distances(),
                    dfa_builder.spec_num_states() as nat,
                ));
            }
            i = i + 1;
        }
        proof {
            assert(mid.skip(len - 1) =~= Seq::<u8>::empty());
        }
        let ghost walked = *dfa_builder;
        let to_state_id_decoded = dfa_builder.get_or_allocate(Utf8State::Original(to_state_id));
        self.add_transition_id(dfa_builder, from_state_id_decoded, bytes[len - 1], to_state_id_decoded);
        proof {
            assert(dfa_builder.spec_distances() =~= pad_distances(
                pre.spec_distances(),
                dfa_builder.spec_num_states() as nat,
            ));
            assert(add_transition_rel(pre, *dfa_builder, *self, chr, to_state_id));
        }
    }
}

/// State reached in a raw transition table `t` from `from` after consuming
/// `input` byte by byte.
pub open spec fn run_states(t: Seq<u32>, from: u32, input: Seq<u8>) -> u32
    decreases input.len(),
{
    if input.len() == 0 {
        from
    } else {
        run_states(t, entry(t, from as int, input[0] as int), input.drop_first())
    }
}

/// A built automaton runs exactly as the table it was built from: if every
/// transition of `d` agrees with table `t`, so does every multi-step run.
pub proof fn lemma_run_matches_table(d: DFA, t: Seq<u32>, from: u32, input: Seq<u8>)
    requires
        d.wf(),
        (from as nat) < d.spec_num_states(),
        d.spec_transitions() == t,
    ensures
        d.spec_run(from, input) == run_states(t, from, input),
        (d.spec_run(from, input) as nat) < d.spec_num_states(),
    decreases input.len(),
{
    if input.len() > 0 {
        let next = d.spec_transition(from, input[0]);
        assert(0 <= from * 256 + input[0] < d.spec_num_states() * 256);
        lemma_run_matches_table(d, t, next, input.drop_first());
    }
}

/// Deduplication of the synthesized chain: when a second `add_state` names a
/// default successor that an earlier `add_state` already used, the interned
/// predecessor states are reused, so at most one state (the newly named
/// caller state itself) is allocated, and the second handle carries the very
/// same default-chain ids.
pub proof fn lemma_predecessor_chain_shared(
    b0: DFABuilder,
    b1: DFABuilder,
    b2: DFABuilder,
    s1: u32,
    d1: Distance,
    s2: u32,
    d2: Distance,
    def: u32,
    h1: DFAStateBuilder,
    h2: DFAStateBuilder,
)
    requires
        add_state_rel(b0, b1, s1, d1, def, h1),
        add_state_rel(b1, b2, s2, d2, def, h2),
    ensures
        b2.spec_num_states() <= b1.spec_num_states() + 1,
        b1.spec_index().contains_key(key_original(s2)) ==> b2.spec_num_states()
            == b1.spec_num_states(),
        h2.spec_default_successor(0) == h1.spec_default_successor(0),
        h2.spec_default_successor(1) == h1.spec_default_successor(1),
        h2.spec_default_successor(2) == h1.spec_default_successor(2),
        h2.spec_default_successor(3) == h1.spec_default_successor(3),
{
    let k2 = key_original(def);
    assert(b1.spec_index().contains_key(k2));
    let did = b1.spec_index()[k2];
    assert(b1.spec_index().contains_key(key_predecessor(did, 1)));
    assert(b1.spec_index().contains_key(key_predecessor(did, 2)));
    assert(b1.spec_index().contains_key(key_predecessor(did, 3)));
}

/// A byte sequence of the length announced by its first byte's UTF-8
/// lead-byte class: one byte below 192 (single-byte characters as well as
/// stray continuation or invalid bytes), or a 2-, 3- or 4-byte sequence led
/// by the matching lead byte.
pub open spec fn lead_byte_matches_length(bytes: Seq<u8>) -> bool {
    ||| (bytes.len() == 1 && bytes[0] < 192)
    ||| (bytes.len() == 2 && 192 <= bytes[0] < 224)
    ||| (bytes.len() == 3 && 224 <= bytes[0] < 240)
    ||| (bytes.len() == 4 && 240 <= bytes[0])
}

/// The default path consumes exactly one character of any encoded length:
/// right after `add_state`, any byte sequence whose first byte is a UTF-8
/// lead byte of the sequence's length runs from the registered state to the
/// default successor, whatever the continuation bytes are.
pub proof fn lemma_default_path_char_length(
    b0: DFABuilder,
    b1: DFABuilder,
    state: u32,
    dist: Distance,
    def: u32,
    h: DFAStateBuilder,
    bytes: Seq<u8>,
)
    requires
        b0.inv(),
        b1.inv(),
        add_state_rel(b0, b1, state, dist, def, h),
        lead_byte_matches_length(bytes),
    ensures
        run_states(b1.spec_transitions(), h.spec_state_id(), bytes) == h.spec_default_successor(
            0,
        ),
{
    let t = b1.spec_transitions();
    let sid = h.spec_state_id();
    let did = h.spec_default_successor(0);
    let p1 = h.spec_default_successor(1);
    let p2 = h.spec_default_successor(2);
    let p3 = h.spec_default_successor(3);
    lemma_add_state_ids(b0, b1, state, dist, def, h);
    let rest1 = bytes.drop_first();
    let rest2 = rest1.drop_first();
    let rest3 = rest2.drop_first();
    let rest4 = rest3.drop_first();
    if bytes.len() == 1 {
        assert(entry(t, sid as int, bytes[0] as int) == did);
        assert(run_states(t, sid, bytes) == run_states(t, did, rest1));
        assert(run_states(t, did, rest1) == did);
    } else if bytes.len() == 2 {
        assert(rest1[0] == bytes[1]);
        assert(entry(t, sid as int, bytes[0] as int) == p1);
        assert(entry(t, p1 as int, bytes[1] as int) == did);
        assert(run_states(t, sid, bytes) == run_states(t, p1, rest1));
        assert(run_states(t, p1, rest1) == run_states(t, did, rest2));
        assert(run_states(t, did, rest2) == did);
    } else if bytes.len() == 3 {
        assert(rest1[0] == bytes[1]);
        assert(rest2[0] == bytes[2]);
        assert(entry(t, sid as int, bytes[0] as int) == p2);
        assert(entry(t, p2 as int, bytes[1] as int) == p1);
        assert(entry(t, p1 as int, bytes[2] as int) == did);
        assert(run_states(t, sid, bytes) == run_states(t, p2, rest1));
        assert(run_states(t, p2, rest1) == run_states(t, p1, rest2));
        assert(run_states(t, p1, rest2) == run_states(t, did, rest3));
        assert(run_states(t, did, rest3) == did);
    } else {
        assert(rest1[0] == bytes[1]);
        assert(rest2[0] == bytes[2]);
        assert(rest3[0] == bytes[3]);
        assert(entry(t, sid as int, bytes[0] as int) == p3);
        assert(entry(t, p3 as int, bytes[1] as int) == p2);
        assert(entry(t, p2 as int, bytes[2] as int) == p1);
        assert(entry(t, p1 as int, bytes[3] as int) == did);
        assert(run_states(t, sid, bytes) == run_states(t, p3, rest1));
        assert(run_states(t, p3, rest1) == run_states(t, p2, rest2));
        assert(run_states(t, p2, rest2) == run_states(t, p1, rest3));
        assert(run_states(t, p1, rest3) == run_states(t, did, rest4));
        assert(run_states(t, did, rest4) == did);
    }
}

/// The ids carried by an `add_state` handle are the interned ones: valid,
/// pairwise consistent, and recorded in the index under their keys.
proof fn lemma_add_state_ids(
    b0: DFABuilder,
    b1: DFABuilder,
    state: u32,
    dist: Distance,
    def: u32,
    h: DFAStateBuilder,
)
    requires
        b0.inv(),
        b1.inv(),
        add_state_rel(b0, b1, state, dist, def, h),
    ensures
        h.spec_state_id() < b1.spec_num_states(),
        h.spec_default_successor(0) < b1.spec_num_states(),
        h.spec_default_successor(1) < b1.spec_num_states(),
        h.spec_default_successor(2) < b1.spec_num_states(),
        h.spec_default_successor(3) < b1.spec_num_states(),
        b1.spec_index().contains_key(key_original(state)) && b1.spec_index()[key_original(state)]
            == h.spec_state_id(),
        b1.spec_index().contains_key(key_original(def)) && b1.spec_index()[key_original(def)]
            == h.spec_default_successor(0),
        forall|k: int|
            1 <= k <= 3 ==> b1.spec_index().contains_key(
                key_predecessor(h.spec_default_successor(0), k as u8),
            ) && b1.spec_index()[key_predecessor(h.spec_default_successor(0), k as u8)]
                == #[trigger] h.spec_default_successor(k),
        h.spec_state_id() != h.spec_default_successor(1),
        h.spec_state_id() != h.spec_default_successor(2),
        h.spec_state_id() != h.spec_default_successor(3),
        h.spec_default_successor(0) != h.spec_default_successor(1),
        h.spec_default_successor(0) != h.spec_default_successor(2),
        h.spec_default_successor(0) != h.spec_default_successor(3),
        h.spec_default_successor(1) != h.spec_default_successor(2),
        h.spec_default_successor(1) != h.spec_default_successor(3),
        h.spec_default_successor(2) != h.spec_default_successor(3),
{
    let m0 = b0.spec_index();
    let n0 = b0.spec_num_states();
    let k1 = key_original(state);
    let sid = intern_id(m0, n0, k1);
    let m1 = intern_map(m0, n0, k1);
    let n1 = (n0 + intern_growth(m0, k1)) as u32;
    let k2 = key_original(def);
    let did = intern_id(m1, n1, k2);
    let m2 = intern_map(m1, n1, k2);
    let n2 = (n1 + intern_growth(m1, k2)) as u32;
    let k3 = key_predecessor(did, 1);
    let p1 = intern_id(m2, n2, k3);
    let m3 = intern_map(m2, n2, k3);
    let n3 = (n2 + intern_growth(m2, k3)) as u32;
    let k4 = key_predecessor(did, 2);
    let p2 = intern_id(m3, n3, k4);
    let m4 = intern_map(m3, n3, k4);
    let n4 = (n3 + intern_growth(m3, k4)) as u32;
    let k5 = key_predecessor(did, 3);
    let p3 = intern_id(m4, n4, k5);
    let m5 = intern_map(m4, n4, k5);
    assert(h.spec_state_id() == sid && h.spec_default_successor(0) == did);
    assert(h.spec_default_successor(1) == p1 && h.spec_default_successor(2) == p2
        && h.spec_default_successor(3) == p3);
    assert(k1 != k3 && k1 != k4 && k1 != k5);
    assert(k2 != k3 && k2 != k4 && k2 != k5);
    assert(k3 != k4 && k3 != k5 && k4 != k5);
    assert(m5.contains_key(k1) && m5[k1] == sid);
    assert(m5.contains_key(k2) && m5[k2] == did);
    assert(m5.contains_key(k3) && m5[k3] == p1);
    assert(m5.contains_key(k4) && m5[k4] == p2);
    assert(m5.contains_key(k5) && m5[k5] == p3);
    assert(b1.spec_index() == m5);
}

/// The UTF-8 encoding of a scalar starts with the lead byte of its length
/// class and has that length.
proof fn lemma_encode_scalar_lead_byte(u: u32)
    requires
        vstd::utf8::is_scalar(u),
    ensures
        lead_byte_matches_length(vstd::utf8::encode_scalar(u)),
{
    let bytes = vstd::utf8::encode_scalar(u);
    if vstd::utf8::has_width_1_encoding(u) {
        assert((u & 0x7F) < 192) by (bit_vector);
    } else if vstd::utf8::has_width_2_encoding(u) {
        assert(192 <= (0xC0u8 | (((u >> 6) & 0x1F) as u8)) < 224) by (bit_vector);
    } else if vstd::utf8::has_width_3_encoding(u) {
        assert(224 <= (0xE0u8 | (((u >> 12) & 0x0F) as u8)) < 240) by (bit_vector);
    } else {
        assert(240 <= (0xF0u8 | (((u >> 18) & 0x7) as u8))) by (bit_vector);
    }
}

/// An explicit transition overrides the default path: after `add_state`
/// registers a state and a first `add_transition` installs an edge for
/// `chr`, running the resulting table from that state over exactly the
/// UTF-8 encoding of `chr` ends on the interned destination id for
/// `to_state_id`, not on the default chain.
#[verifier::rlimit(100)]
pub proof fn lemma_explicit_override(
    b0: DFABuilder,
    b1: DFABuilder,
    b2: DFABuilder,
    state: u32,
    dist: Distance,
    def: u32,
    h: DFAStateBuilder,
    chr: char,
    to_state_id: u32,
)
    requires
        b0.inv(),
        b1.inv(),
        add_state_rel(b0, b1, state, dist, def, h),
        add_transition_rel(b1, b2, h, chr, to_state_id),
    ensures
        b2.spec_index().contains_key(key_original(to_state_id)),
        run_states(
            b2.spec_transitions(),
            h.spec_state_id(),
            vstd::utf8::encode_scalar(chr as u32),
        ) == b2.spec_index()[key_original(to_state_id)],
{
    broadcast use vstd::utf8::char_is_scalar;

    lemma_add_state_ids(b0, b1, state, dist, def, h);
    lemma_encode_scalar_lead_byte(chr as u32);
    let bytes = vstd::utf8::encode_scalar(chr as u32);
    let mid = bytes.take(bytes.len() - 1);
    let defs = h.spec_defaults();
    let t1 = b1.spec_transitions();
    let n1 = b1.spec_num_states();
    let sid = h.spec_state_id();
    let did = h.spec_default_successor(0);
    let p1 = h.spec_default_successor(1);
    let p2 = h.spec_default_successor(2);
    let p3 = h.spec_default_successor(3);
    let kdest = key_original(to_state_id);
    let w = walk_bytes(t1, n1, sid, mid, defs);
    let dest = intern_id(b1.spec_index(), w.1, kdest);
    let tfin = b2.spec_transitions();
    let x = n1;
    assert(t1.len() == 256 * (n1 as nat));
    assert(sid < n1 && did < n1 && p1 < n1 && p2 < n1 && p3 < n1);
    if bytes.len() == 1 {
        assert(mid =~= Seq::<u8>::empty());
        assert(w == (t1, n1, sid));
        assert(entry(tfin, sid as int, bytes[0] as int) == dest);
        assert(run_states(tfin, sid, bytes) == run_states(tfin, dest, bytes.drop_first()));
    } else if bytes.len() == 2 {
        assert(mid.len() == 1 && mid[0] == bytes[0]);
        assert(entry(t1, sid as int, bytes[0] as int) == p1);
        assert(defs[1] == p1);
        let ta = (t1 + row_of(p1)).update((sid as int) * 256 + (bytes[0] as int), x);
        assert(walk_bytes(t1, n1, sid, mid, defs) == walk_bytes(
            ta,
            (n1 + 1) as u32,
            x,
            mid.drop_first(),
            defs,
        ));
        assert(mid.drop_first() =~= Seq::<u8>::empty());
        assert(w == (ta, (n1 + 1) as u32, x));
        assert(entry(tfin, sid as int, bytes[0] as int) == x);
        assert(entry(tfin, x as int, bytes[1] as int) == dest);
        assert(bytes.drop_first()[0] == bytes[1]);
        assert(run_states(tfin, sid, bytes) == run_states(tfin, x, bytes.drop_first()));
        assert(run_states(tfin, x, bytes.drop_first()) == run_states(
            tfin,
            dest,
            bytes.drop_first().drop_first(),
        ));
    } else if bytes.len() == 3 {
        assert(mid.len() == 2 && mid[0] == bytes[0] && mid[1] == bytes[1]);
        assert(entry(t1, sid as int, bytes[0] as int) == p2);
        assert(defs[2] == p2 && defs[1] == p1);
        let ta = (t1 + row_of(p2)).update((sid as int) * 256 + (bytes[0] as int), x);
        assert(walk_bytes(t1, n1, sid, mid, defs) == walk_bytes(
            ta,
            (n1 + 1) as u32,
            x,
            mid.drop_first(),
            defs,
        ));
        assert(mid.drop_first().len() == 1 && mid.drop_first()[0] == bytes[1]);
        assert(entry(ta, x as int, bytes[1] as int) == p2);
        assert(p2 != p1);
        let tb = ta.update((x as int) * 256 + (bytes[1] as int), p2);
        assert(walk_bytes(ta, (n1 + 1) as u32, x, mid.drop_first(), defs) == walk_bytes(
            tb,
            (n1 + 1) as u32,
            p2,
            mid.drop_first().drop_first(),
            defs,
        ));
        assert(mid.drop_first().drop_first() =~= Seq::<u8>::empty());
        assert(w == (tb, (n1 + 1) as u32, p2));
        assert(entry(tfin, sid as int, bytes[0] as int) == x);
        assert(entry(tfin, x as int, bytes[1] as int) == p2);
        assert(entry(tfin, p2 as int, bytes[2] as int) == dest);
        assert(bytes.drop_first()[0] == bytes[1]);
        assert(bytes.drop_first().drop_first()[0] == bytes[2]);
        assert(run_states(tfin, sid, bytes) == run_states(tfin, x, bytes.drop_first()));
        assert(run_states(tfin, x, bytes.drop_first()) == run_states(
            tfin,
            p2,
            bytes.drop_first().drop_first(),
        ));
        assert(run_states(tfin, p2, bytes.drop_first().drop_first()) == run_states(
            tfin,
            dest,
            bytes.drop_first().drop_first().drop_first(),
        ));
    } else {
        assert(bytes.len() == 4);
        assert(mid.len() == 3 && mid[0] == bytes[0] && mid[1] == bytes[1] && mid[2] == bytes[2]);
        assert(entry(t1, sid as int, bytes[0] as int) == p3);
        assert(defs[3] == p3 && defs[2] == p2 && defs[1] == p1);
        let ta = (t1 + row_of(p3)).update((sid as int) * 256 + (bytes[0] as int), x);
        assert(walk_bytes(t1, n1, sid, mid, defs) == walk_bytes(
            ta,
            (n1 + 1) as u32,
            x,
            mid.drop_first(),
            defs,
        ));
        assert(mid.drop_first().len() == 2 && mid.drop_first()[0] == bytes[1]);
        assert(entry(ta, x as int, bytes[1] as int) == p3);
        assert(p3 != p2);
        let tb = ta.update((x as int) * 256 + (bytes[1] as int), p3);
        assert(walk_bytes(ta, (n1 + 1) as u32, x, mid.drop_first(), defs) == walk_bytes(
            tb,
            (n1 + 1) as u32,
            p3,
            mid.drop_first().drop_first(),
            defs,
        ));
        assert(mid.drop_first().drop_first().len() == 1 && mid.drop_first().drop_first()[0]
            == bytes[2]);
        assert(entry(tb, p3 as int, bytes[2] as int) == entry(t1, p3 as int, bytes[2] as int));
        assert(entry(t1, p3 as int, bytes[2] as int) == p2);
        assert(p2 != p1);
        let tc = tb.update((p3 as int) * 256 + (bytes[2] as int), p2);
        assert(walk_bytes(tb, (n1 + 1) as u32, p3, mid.drop_first().drop_first(), defs)
            == walk_bytes(tc, (n1 + 1) as u32, p2, mid.drop_first().drop_first().drop_first(), defs));
        assert(mid.drop_first().drop_first().drop_first() =~= Seq::<u8>::empty());
        assert(w == (tc, (n1 + 1) as u32, p2));
        assert(entry(tfin, sid as int, bytes[0] as int) == x);
        assert(entry(tfin, x as int, bytes[1] as int) == p3);
        assert(entry(tfin, p3 as int, bytes[2] as int) == p2);
        assert(entry(tfin, p2 as int, bytes[3] as int) == dest);
        assert(bytes.drop_first()[0] == bytes[1]);
        assert(bytes.drop_first().drop_first()[0] == bytes[2]);
        assert(bytes.drop_first().drop_first().drop_first()[0] == bytes[3]);
        assert(run_states(tfin, sid, bytes) == run_states(tfin, x, bytes.drop_first()));
        assert(run_states(tfin, x, bytes.drop_first()) == run_states(
            tfin,
            p3,
            bytes.drop_first().drop_first(),
        ));
        assert(run_states(tfin, p3, bytes.drop_first().drop_first()) == run_states(
            tfin,
            p2,
            bytes.drop_first().drop_first().drop_first(),
        ));
        assert(run_states(tfin, p2, bytes.drop_first().drop_first().drop_first()) == run_states(
            tfin,
            dest,
            bytes.drop_first().drop_first().drop_first().drop_first(),
        ));
    }
}

/// Prefix sharing does not cross destinations: after `add_state`, when two
/// distinct characters of the same encoded length share their whole byte
/// prefix up to the final byte and each gets its own explicit transition,
/// running the table over either full character reaches that character's
/// own interned destination — the later call neither redirects nor corrupts
/// the earlier one's target.
#[verifier::rlimit(100)]
pub proof fn lemma_prefix_sharing_independent(
    b0: DFABuilder,
    b1: DFABuilder,
    b2: DFABuilder,
    b3: DFABuilder,
    state: u32,
    dist: Distance,
    def: u32,
    h: DFAStateBuilder,
    chr1: char,
    to1: u32,
    chr2: char,
    to2: u32,
)
    requires
        b0.inv(),
        b1.inv(),
        b2.inv(),
        add_state_rel(b0, b1, state, dist, def, h),
        add_transition_rel(b1, b2, h, chr1, to1),
        add_transition_rel(b2, b3, h, chr2, to2),
        chr1 != chr2,
        vstd::utf8::encode_scalar(chr1 as u32).len() == vstd::utf8::encode_scalar(
            chr2 as u32,
        ).len(),
        vstd::utf8::encode_scalar(chr1 as u32).len() >= 2,
        vstd::utf8::encode_scalar(chr1 as u32).take(
            vstd::utf8::encode_scalar(chr1 as u32).len() - 1,
        ) == vstd::utf8::encode_scalar(chr2 as u32).take(
            vstd::utf8::encode_scalar(chr2 as u32).len() - 1,
        ),
    ensures
        b3.spec_index().contains_key(key_original(to1)),
        b3.spec_index().contains_key(key_original(to2)),
        run_states(
            b3.spec_transitions(),
            h.spec_state_id(),
            vstd::utf8::encode_scalar(chr1 as u32),
        ) == b3.spec_index()[key_original(to1)],
        run_states(
            b3.spec_transitions(),
            h.spec_state_id(),
            vstd::utf8::encode_scalar(chr2 as u32),
        ) == b3.spec_index()[key_original(to2)],
{
    broadcast use vstd::utf8::char_is_scalar;

    lemma_add_state_ids(b0, b1, state, dist, def, h);
    lemma_encode_scalar_lead_byte(chr1 as u32);
    lemma_encode_scalar_lead_byte(chr2 as u32);
    let bytes1 = vstd::utf8::encode_scalar(chr1 as u32);
    let bytes2 = vstd::utf8::encode_scalar(chr2 as u32);
    let len = bytes1.len();
    let mid = bytes1.take(len - 1);
    assert(bytes2.take(len - 1) == mid);
    assert forall|i: int| 0 <= i < len - 1 implies bytes2[i] == bytes1[i] by {
        assert(mid[i] == bytes1[i] && mid[i] == bytes2[i]);
    }
    let last1 = bytes1[len - 1];
    let last2 = bytes2[len - 1];
    assert(last1 != last2) by {
        if last1 == last2 {
            assert(bytes1 =~= bytes2);
            vstd::utf8::char_u32_cast(chr1, chr1 as u32);
            vstd::utf8::char_u32_cast(chr2, chr2 as u32);
            vstd::utf8::encode_utf8_first_scalar(seq![chr1]);
            vstd::utf8::encode_utf8_first_scalar(seq![chr2]);
            assert(vstd::utf8::decode_first_scalar(bytes1) == chr1 as u32);
            assert(vstd::utf8::decode_first_scalar(bytes2) == chr2 as u32);
            assert(false);
        }
    }
    let defs = h.spec_defaults();
    let t1 = b1.spec_transitions();
    let n1 = b1.spec_num_states();
    let sid = h.spec_state_id();
    let did = h.spec_default_successor(0);
    let p1 = h.spec_default_successor(1);
    let p2 = h.spec_default_successor(2);
    let p3 = h.spec_default_successor(3);
    let kd1 = key_original(to1);
    let kd2 = key_original(to2);
    let w1 = walk_bytes(t1, n1, sid, mid, defs);
    let dest1 = intern_id(b1.spec_index(), w1.1, kd1);
    let t2mid = b2.spec_transitions();
    let n2 = b2.spec_num_states();
    let w2 = walk_bytes(t2mid, n2, sid, mid, defs);
    let dest2 = intern_id(b2.spec_index(), w2.1, kd2);
    let tfin = b3.spec_transitions();
    let x = n1;
    assert(t1.len() == 256 * (n1 as nat));
    assert(t2mid.len() == 256 * (n2 as nat));
    assert(sid < n1 && did < n1 && p1 < n1 && p2 < n1 && p3 < n1);
    assert(b2.spec_index().contains_key(kd1) && b2.spec_index()[kd1] == dest1);
    assert(b3.spec_index().contains_key(kd1) && b3.spec_index()[kd1] == dest1);
    assert(b3.spec_index().contains_key(kd2) && b3.spec_index()[kd2] == dest2);
    if len == 2 {
        // First walk: fresh intermediate x off the depth-1 default.
        assert(mid.len() == 1 && mid[0] == bytes1[0]);
        assert(entry(t1, sid as int, bytes1[0] as int) == p1);
        assert(defs[1] == p1);
        let ta = (t1 + row_of(p1)).update((sid as int) * 256 + (bytes1[0] as int), x);
        assert(walk_bytes(t1, n1, sid, mid, defs) == walk_bytes(
            ta,
            (n1 + 1) as u32,
            x,
            mid.drop_first(),
            defs,
        ));
        assert(mid.drop_first() =~= Seq::<u8>::empty());
        assert(w1 == (ta, (n1 + 1) as u32, x));
        assert(entry(t2mid, sid as int, bytes1[0] as int) == x);
        assert(entry(t2mid, x as int, last1 as int) == dest1);
        // Second walk reuses x: its entry is no longer the default.
        assert(x != p1);
        let tb = t2mid.update((sid as int) * 256 + (bytes1[0] as int), x);
        assert(walk_bytes(t2mid, n2, sid, mid, defs) == walk_bytes(
            tb,
            n2,
            x,
            mid.drop_first(),
            defs,
        ));
        assert(w2 == (tb, n2, x));
        assert(entry(tfin, sid as int, bytes1[0] as int) == x);
        assert(entry(tfin, x as int, last2 as int) == dest2);
        assert(entry(tfin, x as int, last1 as int) == dest1);
        assert(bytes1.drop_first()[0] == last1);
        assert(bytes2.drop_first()[0] == last2);
        assert(bytes2[0] == bytes1[0]);
        assert(run_states(tfin, sid, bytes1) == run_states(tfin, x, bytes1.drop_first()));
        assert(run_states(tfin, x, bytes1.drop_first()) == run_states(
            tfin,
            dest1,
            bytes1.drop_first().drop_first(),
        ));
        assert(run_states(tfin, sid, bytes2) == run_states(tfin, x, bytes2.drop_first()));
        assert(run_states(tfin, x, bytes2.drop_first()) == run_states(
            tfin,
            dest2,
            bytes2.drop_first().drop_first(),
        ));
    } else if len == 3 {
        // First walk: fresh x, then the shared depth-2 predecessor.
        assert(mid.len() == 2 && mid[0] == bytes1[0] && mid[1] == bytes1[1]);
        assert(entry(t1, sid as int, bytes1[0] as int) == p2);
        assert(defs[2] == p2 && defs[1] == p1);
        let ta = (t1 + row_of(p2)).update((sid as int) * 256 + (bytes1[0] as int), x);
        assert(walk_bytes(t1, n1, sid, mid, defs) == walk_bytes(
            ta,
            (n1 + 1) as u32,
            x,
            mid.drop_first(),
            defs,
        ));
        assert(mid.drop_first().len() == 1 && mid.drop_first()[0] == bytes1[1]);
        assert(entry(ta, x as int, bytes1[1] as int) == p2);
        assert(p2 != p1);
        let tb = ta.update((x as int) * 256 + (bytes1[1] as int), p2);
        assert(walk_bytes(ta, (n1 + 1) as u32, x, mid.drop_first(), defs) == walk_bytes(
            tb,
            (n1 + 1) as u32,
            p2,
            mid.drop_first().drop_first(),
            defs,
        ));
        assert(mid.drop_first().drop_first() =~= Seq::<u8>::empty());
        assert(w1 == (tb, (n1 + 1) as u32, p2));
        assert(entry(t2mid, sid as int, bytes1[0] as int) == x);
        assert(entry(t2mid, x as int, bytes1[1] as int) == p2);
        assert(entry(t2mid, p2 as int, last1 as int) == dest1);
        // Second walk reuses x and p2: neither entry is its default now.
        assert(x != p2);
        let tc = t2mid.update((sid as int) * 256 + (bytes1[0] as int), x);
        assert(walk_bytes(t2mid, n2, sid, mid, defs) == walk_bytes(
            tc,
            n2,
            x,
            mid.drop_first(),
            defs,
        ));
        assert(entry(tc, x as int, bytes1[1] as int) == p2);
        let td = tc.update((x as int) * 256 + (bytes1[1] as int), p2);
        assert(walk_bytes(tc, n2, x, mid.drop_first(), defs) == walk_bytes(
            td,
            n2,
            p2,
            mid.drop_first().drop_first(),
            defs,
        ));
        assert(w2 == (td, n2, p2));
        assert(entry(tfin, sid as int, bytes1[0] as int) == x);
        assert(entry(tfin, x as int, bytes1[1] as int) == p2);
        assert(entry(tfin, p2 as int, last2 as int) == dest2);
        assert(entry(tfin, p2 as int, last1 as int) == dest1);
        assert(bytes1.drop_first()[0] == bytes1[1]);
        assert(bytes1.drop_first().drop_first()[0] == last1);
        assert(bytes2.drop_first()[0] == bytes1[1]);
        assert(bytes2.drop_first().drop_first()[0] == last2);
        assert(bytes2[0] == bytes1[0]);
        assert(run_states(tfin, sid, bytes1) == run_states(tfin, x, bytes1.drop_first()));
        assert(run_states(tfin, x, bytes1.drop_first()) == run_states(
            tfin,
            p2,
            bytes1.drop_first().drop_first(),
        ));
        assert(run_states(tfin, p2, bytes1.drop_first().drop_first()) == run_states(
            tfin,
            dest1,
            bytes1.drop_first().drop_first().drop_first(),
        ));
        assert(run_states(tfin, sid, bytes2) == run_states(tfin, x, bytes2.drop_first()));
        assert(run_states(tfin, x, bytes2.drop_first()) == run_states(
            tfin,
            p2,
            bytes2.drop_first().drop_first(),
        ));
        assert(run_states(tfin, p2, bytes2.drop_first().drop_first()) == run_states(
            tfin,
            dest2,
            bytes2.drop_first().drop_first().drop_first(),
        ));
    } else {
        // First walk: fresh x, then the shared depth-3 and depth-2 states.
        assert(len == 4);
        assert(mid.len() == 3 && mid[0] == bytes1[0] && mid[1] == bytes1[1] && mid[2]
            == bytes1[2]);
        assert(entry(t1, sid as int, bytes1[0] as int) == p3);
        assert(defs[3] == p3 && defs[2] == p2 && defs[1] == p1);
        let ta = (t1 + row_of(p3)).update((sid as int) * 256 + (bytes1[0] as int), x);
        assert(walk_bytes(t1, n1, sid, mid, defs) == walk_bytes(
            ta,
            (n1 + 1) as u32,
            x,
            mid.drop_first(),
            defs,
        ));
        assert(mid.drop_first().len() == 2 && mid.drop_first()[0] == bytes1[1]);
        assert(entry(ta, x as int, bytes1[1] as int) == p3);
        assert(p3 != p2);
        let tb = ta.update((x as int) * 256 + (bytes1[1] as int), p3);
        assert(walk_bytes(ta, (n1 + 1) as u32, x, mid.drop_first(), defs) == walk_bytes(
            tb,
            (n1 + 1) as u32,
            p3,
            mid.drop_first().drop_first(),
            defs,
        ));
        assert(mid.drop_first().drop_first().len() == 1 && mid.drop_first().drop_first()[0]
            == bytes1[2]);
        assert(entry(tb, p3 as int, bytes1[2] as int) == entry(t1, p3 as int, bytes1[2] as int));
        assert(entry(t1, p3 as int, bytes1[2] as int) == p2);
        assert(p2 != p1);
        let tc = tb.update((p3 as int) * 256 + (bytes1[2] as int), p2);
        assert(walk_bytes(tb, (n1 + 1) as u32, p3, mid.drop_first().drop_first(), defs)
            == walk_bytes(
            tc,
            (n1 + 1) as u32,
            p2,
            mid.drop_first().drop_first().drop_first(),
            defs,
        ));
        assert(mid.drop_first().drop_first().drop_first() =~= Seq::<u8>::empty());
        assert(w1 == (tc, (n1 + 1) as u32, p2));
        assert(entry(t2mid, sid as int, bytes1[0] as int) == x);
        assert(entry(t2mid, x as int, bytes1[1] as int) == p3);
        assert(entry(t2mid, p3 as int, bytes1[2] as int) == p2);
        assert(entry(t2mid, p2 as int, last1 as int) == dest1);
        // Second walk reuses x, p3, p2.
        assert(x != p3);
        let td = t2mid.update((sid as int) * 256 + (bytes1[0] as int), x);
        assert(walk_bytes(t2mid, n2, sid, mid, defs) == walk_bytes(
            td,
            n2,
            x,
            mid.drop_first(),
            defs,
        ));
        assert(entry(td, x as int, bytes1[1] as int) == p3);
        let te = td.update((x as int) * 256 + (bytes1[1] as int), p3);
        assert(walk_bytes(td, n2, x, mid.drop_first(), defs) == walk_bytes(
            te,
            n2,
            p3,
            mid.drop_first().drop_first(),
            defs,
        ));
        assert(entry(te, p3 as int, bytes1[2] as int) == p2);
        let tf = te.update((p3 as int) * 256 + (bytes1[2] as int), p2);
        assert(walk_bytes(te, n2, p3, mid.drop_first().drop_first(), defs) == walk_bytes(
            tf,
            n2,
            p2,
            mid.drop_first().drop_first().drop_first(),
            defs,
        ));
        assert(w2 == (tf, n2, p2));
        assert(entry(tfin, sid as int, bytes1[0] as int) == x);
        assert(entry(tfin, x as int, bytes1[1] as int) == p3);
        assert(entry(tfin, p3 as int, bytes1[2] as int) == p2);
        assert(entry(tfin, p2 as int, last2 as int) == dest2);
        assert(entry(tfin, p2 as int, last1 as int) == dest1);
        assert(bytes1.drop_first()[0] == bytes1[1]);
        assert(bytes1.drop_first().drop_first()[0] == bytes1[2]);
        assert(bytes1.drop_first().drop_first().drop_first()[0] == last1);
        assert(bytes2.drop_first()[0] == bytes1[1]);
        assert(bytes2.drop_first().drop_first()[0] == bytes1[2]);
        assert(bytes2.drop_first().drop_first().drop_first()[0] == last2);
        assert(bytes2[0] == bytes1[0]);
        assert(run_states(tfin, sid, bytes1) == run_states(tfin, x, bytes1.drop_first()));
        assert(run_states(tfin, x, bytes1.drop_first()) == run_states(
            tfin,
            p3,
            bytes1.drop_first().drop_first(),
        ));
        assert(run_states(tfin, p3, bytes1.drop_first().drop_first()) == run_states(
            tfin,
            p2,
            bytes1.drop_first().drop_first().drop_first(),
        ));
        assert(run_states(tfin, p2, bytes1.drop_first().drop_first().drop_first()) == run_states(
            tfin,
            dest1,
            bytes1.drop_first().drop_first().drop_first().drop_first(),
        ));
        assert(run_states(tfin, sid, bytes2) == run_states(tfin, x, bytes2.drop_first()));
        assert(run_states(tfin, x, bytes2.drop_first()) == run_states(
            tfin,
            p3,
            bytes2.drop_first().drop_first(),
        ));
        assert(run_states(tfin, p3, bytes2.drop_first().drop_first()) == run_states(
            tfin,
            p2,
            bytes2.drop_first().drop_first().drop_first(),
        ));
        assert(run_states(tfin, p2, bytes2.drop_first().drop_first().drop_first()) == run_states(
            tfin,
            dest2,
            bytes2.drop_first().drop_first().drop_first().drop_first(),
        ));
    }
}

} // verus!
