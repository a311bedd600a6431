//! The automaton model handed over by the upstream DFA builder: states with
//! grouped byte transitions, accept markers, the end-anchor flag and the
//! optional substring-boundary metadata.

use vstd::prelude::*;
use crate::decimal::dec_str;
use crate::decimal::dec_string;

verus! {

use vstd::string::StringExecFns;

/// Whether a state signifies a successful full-pattern match once the input
/// is exhausted.
#[derive(Clone, Copy, Debug)]
pub enum StateKind {
    Normal,
    Accept,
}

/// One outgoing edge group of a state: consuming any byte listed in `bytes`
/// moves the walk to the state with id `to_state`.
pub struct Transition {
    pub to_state: usize,
    pub bytes: Vec<u8>,
}

/// One state of the automaton. States are stored in id order, so `state_id`
/// always equals the state's position in `Automaton::states`.
pub struct State {
    pub state_id: usize,
    pub kind: StateKind,
    pub transitions: Vec<Transition>,
}

/// A deterministic finite automaton plus the metadata the generator needs:
/// the end-anchor flag, the optional capture-boundary edge pairs and the
/// original pattern text (kept only as a diagnostic comment in the output).
pub struct Automaton {
    pub states: Vec<State>,
    pub has_end_anchor: bool,
    pub substring_boundary: Option<Vec<(usize, usize)>>,
    pub pattern: String,
}

/// A malformed automaton detected at generation time; generation aborts with
/// one of these instead of producing partial output.
#[derive(Clone, Copy, Debug, PartialEq, Eq, Structural)]
pub enum GenError {
    /// The automaton has no accept state at all.
    NoAcceptStates,
    /// The named non-accept state has no outgoing transitions.
    NoOutgoingTransitions(usize),
    /// The named accept state has outgoing transitions although the
    /// configured policy forbids them.
    AcceptStateHasTransitions(usize),
}

/// The diagnostic wording for each violated generation-time invariant.
pub open spec fn describe_spec(e: GenError) -> Seq<char> {
    match e {
        GenError::NoAcceptStates => "automaton has no accept states"@,
        GenError::NoOutgoingTransitions(s) => "non-accept state "@ + dec_str(s as int)
            + " has no outgoing transitions"@,
        GenError::AcceptStateHasTransitions(s) => "accept state "@ + dec_str(s as int)
            + " has outgoing transitions, which the configured policy forbids"@,
    }
}

impl GenError {
    /// The descriptive diagnostic for this violated invariant, naming the
    /// offending state where one exists.
    pub fn describe(&self) -> (r: String)
        ensures
            r@ == describe_spec(*self),
    {
        match self {
            GenError::NoAcceptStates => String::from_str("automaton has no accept states"),
            GenError::NoOutgoingTransitions(s) => {
                let mut r = String::from_str("non-accept state ");
                let d = dec_string(*s);
                r.append(d.as_str());
                r.append(" has no outgoing transitions");
                r
            },
            GenError::AcceptStateHasTransitions(s) => {
                let mut r = String::from_str("accept state ");
                let d = dec_string(*s);
                r.append(d.as_str());
                r.append(" has outgoing transitions, which the configured policy forbids");
                r
            },
        }
    }
}

impl Automaton {
    /// Number of states; also the id of the reserved invalid sentinel state.
    pub open spec fn n_states(self) -> int {
        self.states@.len() as int
    }

    /// The reserved invalid state id: one beyond the highest real id.
    pub open spec fn sentinel(self) -> int {
        self.states@.len() as int
    }

    /// True when `s` is the id of an accept state.
    pub open spec fn is_accept(self, s: int) -> bool {
        &&& 0 <= s < self.n_states()
        &&& self.states@[s].kind is Accept
    }

    /// Determinism: over all transitions of the state at index `i`, every
    /// listed byte occurrence is distinct, so at most one destination exists
    /// per byte value.
    pub open spec fn bytes_distinct_at(self, i: int) -> bool {
        let trs = self.states@[i].transitions@;
        forall|j1: int, k1: int, j2: int, k2: int|
            #![trigger trs[j1].bytes@[k1], trs[j2].bytes@[k2]]
            0 <= j1 < trs.len() && 0 <= k1 < trs[j1].bytes@.len() && 0 <= j2 < trs.len() && 0 <= k2
                < trs[j2].bytes@.len() && (j1 != j2 || k1 != k2) ==> trs[j1].bytes@[k1]
                != trs[j2].bytes@[k2]
    }

    /// Structural invariants of the input automaton: ids equal positions,
    /// every referenced destination exists, byte sets are deterministic, and
    /// the boundary metadata, when present, is non-empty and names real
    /// states.
    pub open spec fn wf(self) -> bool {
        &&& forall|i: int|
            0 <= i < self.n_states() ==> (#[trigger] self.states@[i]).state_id == i
        &&& forall|i: int, j: int|
            0 <= i < self.n_states() && 0 <= j < self.states@[i].transitions@.len() ==> (
            #[trigger] self.states@[i].transitions@[j]).to_state < self.states@.len()
        &&& forall|i: int| 0 <= i < self.n_states() ==> self.bytes_distinct_at(i)
        &&& match self.substring_boundary {
            Option::None => true,
            Option::Some(pairs) => pairs@.len() > 0 && forall|p: int|
                0 <= p < pairs@.len() ==> (#[trigger] pairs@[p]).0 < self.states@.len()
                    && pairs@[p].1 < self.states@.len(),
        }
    }

    /// The lookup table of `256 * n_states()` entries fits a `usize` index.
    pub open spec fn fits(self) -> bool {
        256 * self.states@.len() <= usize::MAX
    }

    /// True when at least one accept state exists.
    pub open spec fn has_accept(self) -> bool {
        exists|i: int| 0 <= i < self.n_states() && self.is_accept(i)
    }

    /// The ids of the accept states, in increasing order.
    pub open spec fn accept_ids(self) -> Seq<usize> {
        accept_ids_of(self.states@)
    }

    /// The state id that marks "inside the captured region": the destination
    /// of the first declared boundary pair, when boundary metadata is present.
    pub open spec fn extraction_state(self) -> Option<usize> {
        match self.substring_boundary {
            Option::None => Option::None,
            Option::Some(pairs) => Option::Some(pairs@[0].1),
        }
    }

    /// The generation-time checks of one state under the configured policy:
    /// a non-accept state must have an outgoing transition, and with
    /// `forbid_accept_transitions` an accept state must have none.
    pub open spec fn violation_at(self, forbid_accept_transitions: bool, i: int) -> Option<
        GenError,
    > {
        let st = self.states@[i];
        if !(st.kind is Accept) && st.transitions@.len() == 0 {
            Option::Some(GenError::NoOutgoingTransitions(st.state_id))
        } else if forbid_accept_transitions && st.kind is Accept && st.transitions@.len() > 0 {
            Option::Some(GenError::AcceptStateHasTransitions(st.state_id))
        } else {
            Option::None
        }
    }

    /// True when the automaton passes every generation-time check.
    pub open spec fn valid(self, forbid_accept_transitions: bool) -> bool {
        &&& self.has_accept()
        &&& forall|i: int|
            0 <= i < self.n_states() ==> self.violation_at(forbid_accept_transitions, i) is None
    }

    /// The first violation found when scanning states in id order, starting
    /// at index `i`.
    pub open spec fn scan_violation(self, forbid_accept_transitions: bool, i: int) -> Option<
        GenError,
    >
        decreases self.n_states() - i,
    {
        if i < 0 || i >= self.n_states() {
            Option::None
        } else if self.violation_at(forbid_accept_transitions, i) is Some {
            self.violation_at(forbid_accept_transitions, i)
        } else {
            self.scan_violation(forbid_accept_transitions, i + 1)
        }
    }

    /// The diagnostic reported for an automaton that fails the checks: the
    /// missing accept set first, then the first offending state in id order.
    pub open spec fn first_violation(self, forbid_accept_transitions: bool) -> GenError {
        if !self.has_accept() {
            GenError::NoAcceptStates
        } else {
            self.scan_violation(forbid_accept_transitions, 0)->Some_0
        }
    }
}

/// The accept-state ids of a state sequence, in order.
pub open spec fn accept_ids_of(states: Seq<State>) -> Seq<usize>
    decreases states.len(),
{
    if states.len() == 0 {
        Seq::empty()
    } else {
        accept_ids_of(states.drop_last()) + if states.last().kind is Accept {
            seq![states.last().state_id]
        } else {
            Seq::empty()
        }
    }
}

/// Every id in `accept_ids_of` a prefix of the states is an accept state, and
/// every accept state of the prefix is listed.
proof fn lemma_accept_ids_prefix(aut: Automaton, n: int)
    requires
        aut.wf(),
        0 <= n <= aut.n_states(),
    ensures
        forall|k: int|
            0 <= k < accept_ids_of(aut.states@.take(n)).len() ==> aut.is_accept(
                #[trigger] accept_ids_of(aut.states@.take(n))[k] as int,
            ),
        forall|s: int|
            0 <= s < n && aut.is_accept(s) ==> accept_ids_of(aut.states@.take(n)).contains(
                s as usize,
            ),
    decreases n,
{
    if n > 0 {
        lemma_accept_ids_prefix(aut, n - 1);
        let pre = aut.states@.take(n - 1);
        let cur = aut.states@.take(n);
        assert(cur.drop_last() =~= pre);
        assert(cur.last() == aut.states@[n - 1]);
        assert forall|s: int| 0 <= s < n && aut.is_accept(s) implies accept_ids_of(
            cur,
        ).contains(s as usize) by {
            if s < n - 1 {
                let k = choose|k: int|
                    0 <= k < accept_ids_of(pre).len() && accept_ids_of(pre)[k] == s as usize;
                assert(accept_ids_of(cur)[k] == s as usize);
            } else {
                assert(accept_ids_of(cur).last() == (s as usize));
            }
        }
    }
}

/// `accept_ids` lists exactly the accept states: membership in the emitted
/// accept set coincides with `is_accept`.
pub proof fn lemma_accept_ids_characterize(aut: Automaton)
    requires
        aut.wf(),
    ensures
        forall|k: int|
            0 <= k < aut.accept_ids().len() ==> aut.is_accept(
                #[trigger] aut.accept_ids()[k] as int,
            ),
        forall|s: int| aut.is_accept(s) ==> aut.accept_ids().contains(s as usize),
        aut.has_accept() <==> aut.accept_ids().len() > 0,
{
    lemma_accept_ids_prefix(aut, aut.n_states());
    assert(aut.states@.take(aut.n_states()) =~= aut.states@);
    if aut.accept_ids().len() > 0 {
        assert(aut.is_accept(aut.accept_ids()[0] as int));
    }
    if aut.has_accept() {
        let s = choose|s: int| 0 <= s < aut.n_states() && aut.is_accept(s);
        assert(aut.accept_ids().contains(s as usize));
    }
}

impl Automaton {
    /// Collects the accept-state ids in id order; fails the whole generation
    /// when there are none.
    pub fn accept_state_ids(&self) -> (r: Result<Vec<usize>, GenError>)
        ensures
            match r {
                Result::Ok(ids) => ids@ == self.accept_ids() && ids@.len() > 0,
                Result::Err(e) => e == GenError::NoAcceptStates && !self.has_accept(),
            },
    {
        let mut ids: Vec<usize> = Vec::new();
        let n = self.states.len();
        for i in 0..n
            invariant
                n == self.states@.len(),
                ids@ == accept_ids_of(self.states@.take(i as int)),
        {
            proof {
                assert(self.states@.take(i + 1).drop_last() =~= self.states@.take(i as int));
            }
            match self.states[i].kind {
                StateKind::Accept => ids.push(self.states[i].state_id),
                StateKind::Normal => (),
            }
        }
        proof {
            assert(self.states@.take(n as int) =~= self.states@);
        }
        if ids.len() == 0 {
            proof {
                if self.has_accept() {
                    let s = choose|s: int| 0 <= s < self.n_states() && self.is_accept(s);
                    lemma_accept_ids_nonempty_raw(self.states@, s);
                }
            }
            Result::Err(GenError::NoAcceptStates)
        } else {
            proof {
                if !self.has_accept() {
                    assert forall|i: int|
                        0 <= i < self.states@.len() implies !((
                    #[trigger] self.states@[i]).kind is Accept) by {
                        assert(!self.is_accept(i));
                    }
                    lemma_accept_ids_only_accepts(self.states@);
                }
            }
            Result::Ok(ids)
        }
    }

    /// Runs every generation-time check in order — accept set first, then
    /// the states in id order — and reports the first violated invariant.
    pub fn validate(&self, forbid_accept_transitions: bool) -> (r: Result<(), GenError>)
        ensures
            match r {
                Result::Ok(_) => self.valid(forbid_accept_transitions),
                Result::Err(e) => !self.valid(forbid_accept_transitions) && e
                    == self.first_violation(forbid_accept_transitions),
            },
    {
        let mut any_accept = false;
        let n = self.states.len();
        for i in 0..n
            invariant
                n == self.states@.len(),
                any_accept <==> exists|s: int| 0 <= s < i && self.is_accept(s),
        {
            match self.states[i].kind {
                StateKind::Accept => {
                    proof {
                        assert(self.is_accept(i as int));
                    }
                    any_accept = true;
                },
                StateKind::Normal => (),
            }
        }
        if !any_accept {
            return Result::Err(GenError::NoAcceptStates);
        }
        for i in 0..n
            invariant
                n == self.states@.len(),
                self.has_accept(),
                forall|s: int|
                    0 <= s < i ==> self.violation_at(forbid_accept_transitions, s) is None,
        {
            let st = &self.states[i];
            let is_acc = match st.kind {
                StateKind::Accept => true,
                StateKind::Normal => false,
            };
            if !is_acc && st.transitions.len() == 0 {
                proof {
                    lemma_scan_finds_first(*self, forbid_accept_transitions, i as int);
                }
                return Result::Err(GenError::NoOutgoingTransitions(st.state_id));
            }
            if forbid_accept_transitions && is_acc && st.transitions.len() > 0 {
                proof {
                    lemma_scan_finds_first(*self, forbid_accept_transitions, i as int);
                }
                return Result::Err(GenError::AcceptStateHasTransitions(st.state_id));
            }
        }
        Result::Ok(())
    }
}

impl Automaton {
    /// Decides `wf()` at run time, so unverified callers can test the
    /// structural invariants before generation.
    pub fn check_wf(&self) -> (b: bool)
        ensures
            b == self.wf(),
    {
        let n = self.states.len();
        for i in 0..n
            invariant
                n == self.states@.len(),
                forall|i2: int|
                    0 <= i2 < i ==> (#[trigger] self.states@[i2]).state_id == i2,
                forall|i2: int, j: int|
                    0 <= i2 < i && 0 <= j < self.states@[i2].transitions@.len() ==> (
                    #[trigger] self.states@[i2].transitions@[j]).to_state < n,
                forall|i2: int| 0 <= i2 < i ==> self.bytes_distinct_at(i2),
        {
            if self.states[i].state_id != i {
                proof {
                    if self.wf() {
                        assert(self.states@[i as int].state_id == i as int);
                    }
                }
                return false;
            }
            let m = self.states[i].transitions.len();
            for j in 0..m
                invariant
                    n == self.states@.len(),
                    i < n,
                    m == self.states@[i as int].transitions@.len(),
                    forall|j2: int|
                        0 <= j2 < j ==> (
                        #[trigger] self.states@[i as int].transitions@[j2]).to_state < n,
            {
                if self.states[i].transitions[j].to_state >= n {
                    proof {
                        if self.wf() {
                            assert(self.states@[i as int].transitions@[j as int].to_state < n);
                        }
                    }
                    return false;
                }
            }
            let mut seen: Vec<bool> = Vec::new();
            let mut z: usize = 0;
            while z < 256
                invariant
                    seen@.len() == z <= 256,
                    forall|b: int| 0 <= b < z ==> !(#[trigger] seen@[b]),
                decreases 256 - z,
            {
                seen.push(false);
                z = z + 1;
            }
            for j in 0..m
                invariant
                    n == self.states@.len(),
                    i < n,
                    m == self.states@[i as int].transitions@.len(),
                    seen@.len() == 256,
                    forall|b: int|
                        0 <= b < 256 ==> (#[trigger] seen@[b] <==> exists|j1: int, k1: int|
                            #![trigger self.states@[i as int].transitions@[j1].bytes@[k1]]
                            0 <= j1 < j && 0 <= k1
                                < self.states@[i as int].transitions@[j1].bytes@.len()
                                && self.states@[i as int].transitions@[j1].bytes@[k1] == b),
                    forall|j1: int, k1: int, j2: int, k2: int|
                        #![trigger self.states@[i as int].transitions@[j1].bytes@[k1], self.states@[i as int].transitions@[j2].bytes@[k2]]
                        0 <= j1 < j && 0 <= k1 < self.states@[i as int].transitions@[j1].bytes@.len()
                            && 0 <= j2 < j && 0 <= k2
                            < self.states@[i as int].transitions@[j2].bytes@.len() && (j1 != j2
                            || k1 != k2) ==> self.states@[i as int].transitions@[j1].bytes@[k1]
                            != self.states@[i as int].transitions@[j2].bytes@[k2],
            {
                let l = self.states[i].transitions[j].bytes.len();
                for k in 0..l
                    invariant
                        n == self.states@.len(),
                        i < n,
                        j < m,
                        m == self.states@[i as int].transitions@.len(),
                        l == self.states@[i as int].transitions@[j as int].bytes@.len(),
                        seen@.len() == 256,
                        forall|b: int|
                            0 <= b < 256 ==> (#[trigger] seen@[b] <==> exists|j1: int, k1: int|
                                #![trigger self.states@[i as int].transitions@[j1].bytes@[k1]]
                                0 <= j1 < self.states@[i as int].transitions@.len() && 0 <= k1
                                    < self.states@[i as int].transitions@[j1].bytes@.len() && (j1
                                    < j || (j1 == j && k1 < k))
                                    && self.states@[i as int].transitions@[j1].bytes@[k1] == b),
                        forall|j1: int, k1: int, j2: int, k2: int|
                            #![trigger self.states@[i as int].transitions@[j1].bytes@[k1], self.states@[i as int].transitions@[j2].bytes@[k2]]
                            0 <= j1 < m && 0 <= k1
                                < self.states@[i as int].transitions@[j1].bytes@.len() && 0 <= j2
                                < m && 0 <= k2
                                < self.states@[i as int].transitions@[j2].bytes@.len() && (j1 < j
                                || (j1 == j && k1 < k)) && (j2 < j || (j2 == j && k2 < k)) && (j1
                                != j2 || k1 != k2)
                            ==> self.states@[i as int].transitions@[j1].bytes@[k1]
                                != self.states@[i as int].transitions@[j2].bytes@[k2],
                {
                    let b = self.states[i].transitions[j].bytes[k];
                    if seen[b as usize] {
                        proof {
                            let (j1, k1) = choose|j1: int, k1: int|
                                #![trigger self.states@[i as int].transitions@[j1].bytes@[k1]]
                                0 <= j1 < self.states@[i as int].transitions@.len() && 0 <= k1
                                    < self.states@[i as int].transitions@[j1].bytes@.len() && (j1
                                    < j || (j1 == j && k1 < k))
                                    && self.states@[i as int].transitions@[j1].bytes@[k1]
                                    == b as int;
                            if self.wf() {
                                assert(self.bytes_distinct_at(i as int));
                                assert(self.states@[i as int].transitions@[j1].bytes@[k1]
                                    != self.states@[i as int].transitions@[j as int].bytes@[k as int]);
                            }
                        }
                        return false;
                    }
                    seen.set(b as usize, true);
                    proof {
                        assert forall|b2: int| 0 <= b2 < 256 implies (#[trigger] seen@[b2]
                            <==> exists|j1: int, k1: int|
                            #![trigger self.states@[i as int].transitions@[j1].bytes@[k1]]
                            0 <= j1 < self.states@[i as int].transitions@.len() && 0 <= k1
                                < self.states@[i as int].transitions@[j1].bytes@.len() && (j1 < j
                                || (j1 == j && k1 < k + 1))
                                && self.states@[i as int].transitions@[j1].bytes@[k1] == b2) by {
                            if b2 == b as int {
                                assert(self.states@[i as int].transitions@[j as int].bytes@[k as int]
                                    == b2);
                            }
                        }
                    }
                }
                proof {
                    assert forall|b2: int| 0 <= b2 < 256 implies (#[trigger] seen@[b2]
                        <==> exists|j1: int, k1: int|
                        #![trigger self.states@[i as int].transitions@[j1].bytes@[k1]]
                        0 <= j1 < j + 1 && 0 <= k1
                            < self.states@[i as int].transitions@[j1].bytes@.len()
                            && self.states@[i as int].transitions@[j1].bytes@[k1] == b2) by {}
                }
            }
            proof {
                assert(self.bytes_distinct_at(i as int));
            }
        }
        match &self.substring_boundary {
            Option::None => {},
            Option::Some(pairs) => {
                let plen = pairs.len();
                if plen == 0 {
                    return false;
                }
                for p in 0..plen
                    invariant
                        n == self.states@.len(),
                        self.substring_boundary == Option::Some(*pairs),
                        plen == pairs@.len(),
                        forall|p2: int|
                            0 <= p2 < p ==> (#[trigger] pairs@[p2]).0 < n && pairs@[p2].1 < n,
                {
                    if pairs[p].0 >= n || pairs[p].1 >= n {
                        proof {
                            if self.wf() {
                                assert((pairs@[p as int]).0 < n && pairs@[p as int].1 < n);
                            }
                        }
                        return false;
                    }
                }
            },
        }
        true
    }

    /// Selects the extraction state from the boundary metadata: the
    /// destination of the first declared pair, when any metadata is present.
    pub fn extraction_state_id(&self) -> (r: Option<usize>)
        requires
            self.wf(),
        ensures
            r == self.extraction_state(),
    {
        match &self.substring_boundary {
            Option::Some(pairs) => Option::Some(pairs[0].1),
            Option::None => Option::None,
        }
    }

    /// Decides `fits()` at run time: whether the flattened table's size fits
    /// the machine's index type.
    pub fn check_fits(&self) -> (b: bool)
        ensures
            b == self.fits(),
    {
        self.states.len() <= usize::MAX / 256
    }
}

/// When every earlier state passes its check and state `i` fails, the scan
/// from the start reports state `i`'s violation.
proof fn lemma_scan_finds_first(aut: Automaton, forbid: bool, i: int)
    requires
        0 <= i < aut.n_states(),
        forall|s: int| 0 <= s < i ==> aut.violation_at(forbid, s) is None,
        aut.violation_at(forbid, i) is Some,
    ensures
        aut.scan_violation(forbid, 0) == aut.violation_at(forbid, i),
        !aut.valid(forbid),
{
    lemma_scan_step(aut, forbid, 0, i);
}

proof fn lemma_scan_step(aut: Automaton, forbid: bool, lo: int, i: int)
    requires
        0 <= lo <= i < aut.n_states(),
        forall|s: int| lo <= s < i ==> aut.violation_at(forbid, s) is None,
        aut.violation_at(forbid, i) is Some,
    ensures
        aut.scan_violation(forbid, lo) == aut.violation_at(forbid, i),
    decreases i - lo,
{
    if lo < i {
        lemma_scan_step(aut, forbid, lo + 1, i);
    }
}

/// An accept state at index `s` makes the collected id sequence non-empty.
proof fn lemma_accept_ids_nonempty_raw(states: Seq<State>, s: int)
    requires
        0 <= s < states.len(),
        states[s].kind is Accept,
    ensures
        accept_ids_of(states).len() > 0,
    decreases states.len(),
{
    if s < states.len() - 1 {
        lemma_accept_ids_nonempty_raw(states.drop_last(), s);
    }
}

/// Without any accept state the collected id sequence is empty.
proof fn lemma_accept_ids_only_accepts(states: Seq<State>)
    requires
        forall|i: int| 0 <= i < states.len() ==> !((#[trigger] states[i]).kind is Accept),
    ensures
        accept_ids_of(states).len() == 0,
    decreases states.len(),
{
    if states.len() > 0 {
        assert(states.drop_last() =~= states.take(states.len() - 1));
        lemma_accept_ids_only_accepts(states.drop_last());
    }
}

} // verus!
