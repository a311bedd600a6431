//! Reference semantics of the emitted driver: the walk it performs over the
//! lookup table (sentinel pre-step, one table lookup per input byte, the
//! invalid state absorbing) and the byte collection of the substring
//! variant, together with proofs that the table walk agrees with the
//! automaton's own anchored transition relation.

use vstd::prelude::*;
use crate::automaton::Automaton;
use crate::automaton::StateKind;
use crate::table::alphabet_size;
use crate::table::base_entry;
use crate::table::is_resolved_table;
use crate::table::lemma_entry_range;

verus! {

/// One step of the emitted driver: the invalid sentinel absorbs (the driver
/// never looks up a transition out of it), every other state follows its
/// table row.
pub open spec fn step_walk(aut: Automaton, t: Seq<usize>, s: int, b: u8) -> int {
    if s == aut.sentinel() {
        aut.sentinel()
    } else {
        t[s * alphabet_size() + b] as int
    }
}

/// The state after consuming `input` from state `s0`, one step per byte.
pub open spec fn walk_from(aut: Automaton, t: Seq<usize>, s0: int, input: Seq<u8>) -> int
    decreases input.len(),
{
    if input.len() == 0 {
        s0
    } else {
        step_walk(aut, t, walk_from(aut, t, s0, input.drop_last()), input.last())
    }
}

/// The state after the mandatory pre-step: from state 0 the driver consumes
/// the reserved sentinel byte 255 before any real input.
pub open spec fn start_state(aut: Automaton, t: Seq<usize>) -> int {
    step_walk(aut, t, 0, 255)
}

/// The terminal state of the emitted driver on `input`.
pub open spec fn final_state(aut: Automaton, t: Seq<usize>, input: Seq<u8>) -> int {
    walk_from(aut, t, start_state(aut, t), input)
}

/// Whether the emitted driver's closing assertion holds on `input`: the
/// terminal state belongs to the accept set.
pub open spec fn matcher_accepts(aut: Automaton, t: Seq<usize>, input: Seq<u8>) -> bool {
    aut.is_accept(final_state(aut, t, input))
}

/// One step of the automaton itself under the declared anchor policy:
/// the sentinel absorbs; under an end anchor an accept state routes every
/// byte to the sentinel; otherwise the declared destination is taken, and an
/// unmapped byte restarts at state 0.
pub open spec fn auto_step(aut: Automaton, s: int, b: u8) -> int {
    if s == aut.sentinel() {
        aut.sentinel()
    } else if aut.has_end_anchor && aut.is_accept(s) {
        aut.sentinel()
    } else {
        base_entry(aut, s, b)
    }
}

/// The automaton-level walk from state `s0`.
pub open spec fn auto_walk_from(aut: Automaton, s0: int, input: Seq<u8>) -> int
    decreases input.len(),
{
    if input.len() == 0 {
        s0
    } else {
        auto_step(aut, auto_walk_from(aut, s0, input.drop_last()), input.last())
    }
}

/// The automaton-level terminal state, pre-step included.
pub open spec fn auto_final(aut: Automaton, input: Seq<u8>) -> int {
    auto_walk_from(aut, auto_step(aut, 0, 255), input)
}

/// Anchored acceptance as declared by the automaton itself, without any
/// flattened table.
pub open spec fn dfa_accepts(aut: Automaton, input: Seq<u8>) -> bool {
    aut.is_accept(auto_final(aut, input))
}

/// On a resolved table, one driver step from a valid state equals one
/// automaton step and stays within `[0, n_states]`.
proof fn lemma_step_eq(aut: Automaton, t: Seq<usize>, s: int, b: u8)
    requires
        aut.wf(),
        is_resolved_table(aut, t),
        0 <= s <= aut.n_states(),
    ensures
        step_walk(aut, t, s, b) == auto_step(aut, s, b),
        0 <= step_walk(aut, t, s, b) <= aut.n_states(),
{
    if s < aut.n_states() {
        assert(t[s * alphabet_size() + b] as int == crate::table::resolved_entry(aut, s, b));
        lemma_entry_range(aut, s, b);
    }
}

/// The driver walk over a resolved table agrees with the automaton walk.
proof fn lemma_walk_eq(aut: Automaton, t: Seq<usize>, s0: int, input: Seq<u8>)
    requires
        aut.wf(),
        is_resolved_table(aut, t),
        0 <= s0 <= aut.n_states(),
    ensures
        walk_from(aut, t, s0, input) == auto_walk_from(aut, s0, input),
        0 <= walk_from(aut, t, s0, input) <= aut.n_states(),
    decreases input.len(),
{
    if input.len() > 0 {
        lemma_walk_eq(aut, t, s0, input.drop_last());
        lemma_step_eq(aut, t, walk_from(aut, t, s0, input.drop_last()), input.last());
    }
}

/// The generated matcher decides exactly the automaton's own anchored
/// acceptance: on the resolved table, the driver's terminal state — sentinel
/// pre-step, one lookup per byte, invalid sentinel absorbing — is the
/// automaton-level terminal state, and the closing acceptance assertion
/// holds iff the automaton accepts the input as anchored.
pub proof fn lemma_matcher_equals_dfa(aut: Automaton, t: Seq<usize>, input: Seq<u8>)
    requires
        aut.wf(),
        aut.n_states() >= 1,
        is_resolved_table(aut, t),
    ensures
        final_state(aut, t, input) == auto_final(aut, input),
        matcher_accepts(aut, t, input) == dfa_accepts(aut, input),
        0 <= final_state(aut, t, input) <= aut.n_states(),
{
    lemma_step_eq(aut, t, 0, 255);
    lemma_walk_eq(aut, t, start_state(aut, t), input);
}

/// Without an end anchor the walk never leaves the real states.
proof fn lemma_unanchored_walk_real(aut: Automaton, t: Seq<usize>, s0: int, input: Seq<u8>)
    requires
        aut.wf(),
        aut.n_states() >= 1,
        is_resolved_table(aut, t),
        !aut.has_end_anchor,
        0 <= s0 < aut.n_states(),
    ensures
        0 <= walk_from(aut, t, s0, input) < aut.n_states(),
    decreases input.len(),
{
    if input.len() > 0 {
        lemma_unanchored_walk_real(aut, t, s0, input.drop_last());
        let s = walk_from(aut, t, s0, input.drop_last());
        assert(t[s * alphabet_size() + input.last()] as int == crate::table::resolved_entry(
            aut,
            s,
            input.last(),
        ));
        lemma_entry_range(aut, s, input.last());
    }
}

/// Without an end anchor the driver's state stays a real state id at every
/// prefix of the input: the invalid sentinel is unreachable, so the
/// unguarded lookup the driver performs never indexes past the table, whose
/// rows cover the real states alone.
pub proof fn lemma_unanchored_never_sentinel(aut: Automaton, t: Seq<usize>, input: Seq<u8>)
    requires
        aut.wf(),
        aut.n_states() >= 1,
        is_resolved_table(aut, t),
        !aut.has_end_anchor,
    ensures
        forall|p: int|
            0 <= p <= input.len() ==> 0 <= final_state(aut, t, #[trigger] input.take(p))
                < aut.n_states(),
{
    assert(t[0 * alphabet_size() + 255u8] as int == crate::table::resolved_entry(aut, 0, 255u8));
    lemma_entry_range(aut, 0, 255u8);
    assert forall|p: int| 0 <= p <= input.len() implies 0 <= final_state(
        aut,
        t,
        #[trigger] input.take(p),
    ) < aut.n_states() by {
        lemma_unanchored_walk_real(aut, t, start_state(aut, t), input.take(p));
    }
}

/// Under an end anchor, acceptance is final only at the anchor position:
/// consuming any byte after an accepted input drives the walk into the
/// invalid sentinel, where it stays, so no extended input is accepted.
pub proof fn lemma_end_anchor_invalidates_trailing(
    aut: Automaton,
    t: Seq<usize>,
    input: Seq<u8>,
    suffix: Seq<u8>,
)
    requires
        aut.wf(),
        aut.n_states() >= 1,
        is_resolved_table(aut, t),
        aut.has_end_anchor,
        matcher_accepts(aut, t, input),
        suffix.len() > 0,
    ensures
        final_state(aut, t, input + suffix) == aut.sentinel(),
        !matcher_accepts(aut, t, input + suffix),
    decreases suffix.len(),
{
    let s0 = start_state(aut, t);
    if suffix.len() == 1 {
        assert((input + suffix).drop_last() =~= input);
        let s = final_state(aut, t, input);
        assert(t[s * alphabet_size() + suffix.last()] as int == crate::table::resolved_entry(
            aut,
            s,
            suffix.last(),
        ));
    } else {
        lemma_end_anchor_invalidates_trailing(aut, t, input, suffix.drop_last());
        assert((input + suffix).drop_last() =~= input + suffix.drop_last());
        assert((input + suffix).last() == suffix.last());
    }
}

/// The accept disjunction: the emitted check is a disjunction of equalities
/// against the listed accept ids, and it is true of a state iff that state
/// is an accept state — no other state satisfies any disjunct.
pub proof fn lemma_accept_disjunction(aut: Automaton, s: int)
    requires
        aut.wf(),
    ensures
        (exists|k: int|
            0 <= k < aut.accept_ids().len() && #[trigger] aut.accept_ids()[k] as int == s)
            <==> aut.is_accept(s),
{
    crate::automaton::lemma_accept_ids_characterize(aut);
    if exists|k: int|
        0 <= k < aut.accept_ids().len() && #[trigger] aut.accept_ids()[k] as int == s {
        let k = choose|k: int|
            0 <= k < aut.accept_ids().len() && #[trigger] aut.accept_ids()[k] as int == s;
        assert(aut.is_accept(aut.accept_ids()[k] as int));
    }
    if aut.is_accept(s) {
        assert(aut.accept_ids().contains(s as usize));
        let k = choose|k: int|
            0 <= k < aut.accept_ids().len() && aut.accept_ids()[k] == s as usize;
        assert(aut.accept_ids()[k] as int == s);
    }
}

/// The bytes collected by the substring variant: after each step, the byte
/// just consumed is kept iff the new state is `ex`.
pub open spec fn collected_from(
    aut: Automaton,
    t: Seq<usize>,
    s0: int,
    ex: int,
    input: Seq<u8>,
) -> Seq<u8>
    decreases input.len(),
{
    if input.len() == 0 {
        Seq::empty()
    } else {
        collected_from(aut, t, s0, ex, input.drop_last()) + (if walk_from(aut, t, s0, input)
            == ex {
            seq![input.last()]
        } else {
            Seq::empty()
        })
    }
}

/// The buffer the emitted substring variant fills on `input`, keyed on the
/// declared extraction state.
pub open spec fn collected(aut: Automaton, t: Seq<usize>, input: Seq<u8>) -> Seq<u8> {
    collected_from(
        aut,
        t,
        start_state(aut, t),
        aut.extraction_state()->Some_0 as int,
        input,
    )
}

/// A walk that never visits `ex` collects nothing.
pub proof fn lemma_collected_empty(
    aut: Automaton,
    t: Seq<usize>,
    s0: int,
    ex: int,
    input: Seq<u8>,
)
    requires
        forall|p: int| 1 <= p <= input.len() ==> walk_from(aut, t, s0, #[trigger] input.take(p))
            != ex,
    ensures
        collected_from(aut, t, s0, ex, input) == Seq::<u8>::empty(),
    decreases input.len(),
{
    if input.len() > 0 {
        let pre = input.drop_last();
        assert forall|p: int| 1 <= p <= pre.len() implies walk_from(
            aut,
            t,
            s0,
            #[trigger] pre.take(p),
        ) != ex by {
            assert(pre.take(p) =~= input.take(p));
        }
        lemma_collected_empty(aut, t, s0, ex, pre);
        assert(input.take(input.len() as int) =~= input);
        assert(collected_from(aut, t, s0, ex, input) =~= Seq::<u8>::empty());
    }
}

/// The substring property over the walk: when the walk sits in `ex` exactly
/// after bytes `i..j` (and nowhere else), the collected buffer is exactly
/// the input's sub-range `[i, j)`.
pub proof fn lemma_collected_is_subrange(
    aut: Automaton,
    t: Seq<usize>,
    s0: int,
    ex: int,
    input: Seq<u8>,
    i: int,
    j: int,
)
    requires
        0 <= i <= j <= input.len(),
        forall|p: int|
            1 <= p <= input.len() ==> ((walk_from(aut, t, s0, #[trigger] input.take(p)) == ex)
                <==> (i < p <= j)),
    ensures
        collected_from(aut, t, s0, ex, input) == input.subrange(i, j),
    decreases input.len(),
{
    if i == j {
        lemma_collected_empty(aut, t, s0, ex, input);
        assert(input.subrange(i, j) =~= Seq::<u8>::empty());
    } else {
        let len = input.len() as int;
        let pre = input.drop_last();
        assert(input.take(len) =~= input);
        if j == len {
            assert(walk_from(aut, t, s0, input.take(len)) == ex);
            assert forall|p: int| 1 <= p <= pre.len() implies ((walk_from(
                aut,
                t,
                s0,
                #[trigger] pre.take(p),
            ) == ex) <==> (i < p <= j - 1)) by {
                assert(pre.take(p) =~= input.take(p));
            }
            lemma_collected_is_subrange(aut, t, s0, ex, pre, i, j - 1);
            assert(pre.subrange(i, j - 1) =~= input.subrange(i, j - 1));
            assert(collected_from(aut, t, s0, ex, input) =~= input.subrange(i, j));
        } else {
            assert(!(i < len <= j));
            assert(walk_from(aut, t, s0, input.take(len)) != ex);
            assert forall|p: int| 1 <= p <= pre.len() implies ((walk_from(
                aut,
                t,
                s0,
                #[trigger] pre.take(p),
            ) == ex) <==> (i < p <= j)) by {
                assert(pre.take(p) =~= input.take(p));
            }
            lemma_collected_is_subrange(aut, t, s0, ex, pre, i, j);
            assert(pre.subrange(i, j) =~= input.subrange(i, j));
            assert(collected_from(aut, t, s0, ex, input) =~= input.subrange(i, j));
        }
    }
}

/// The substring property at the driver level: when the driver's state
/// equals the extraction state exactly after bytes `i..j`, the collected
/// buffer equals the input's sub-range `[i, j)`.
pub proof fn lemma_substring_extraction(
    aut: Automaton,
    t: Seq<usize>,
    input: Seq<u8>,
    i: int,
    j: int,
)
    requires
        aut.substring_boundary is Some,
        0 <= i <= j <= input.len(),
        forall|p: int|
            1 <= p <= input.len() ==> ((final_state(aut, t, #[trigger] input.take(p))
                == aut.extraction_state()->Some_0 as int) <==> (i < p <= j)),
    ensures
        collected(aut, t, input) == input.subrange(i, j),
{
    lemma_collected_is_subrange(
        aut,
        t,
        start_state(aut, t),
        aut.extraction_state()->Some_0 as int,
        input,
        i,
        j,
    );
}

/// The substring property for an input that never reaches the extraction
/// state: the collected buffer is empty.
pub proof fn lemma_substring_untouched(aut: Automaton, t: Seq<usize>, input: Seq<u8>)
    requires
        aut.substring_boundary is Some,
        forall|p: int|
            1 <= p <= input.len() ==> final_state(aut, t, #[trigger] input.take(p))
                != aut.extraction_state()->Some_0 as int,
    ensures
        collected(aut, t, input) == Seq::<u8>::empty(),
{
    lemma_collected_empty(
        aut,
        t,
        start_state(aut, t),
        aut.extraction_state()->Some_0 as int,
        input,
    );
}

/// Runs the emitted driver's walk on a concrete input: sentinel pre-step,
/// one table lookup per byte with the invalid sentinel absorbing, then the
/// acceptance check. Returns the terminal state and whether it accepts.
pub fn run_matcher(aut: &Automaton, t: &Vec<usize>, input: &Vec<u8>) -> (r: (usize, bool))
    requires
        aut.wf(),
        aut.fits(),
        aut.n_states() >= 1,
        is_resolved_table(*aut, t@),
    ensures
        r.0 as int == final_state(*aut, t@, input@),
        r.1 == matcher_accepts(*aut, t@, input@),
{
    let n = aut.states.len();
    proof {
        assert(0 * alphabet_size() + 255int == 255int);
        assert(255int < 256 * aut.n_states()) by (nonlinear_arith)
            requires
                aut.n_states() >= 1,
        ;
    }
    let mut s: usize = t[255];
    proof {
        assert(t@[255] as int == crate::table::resolved_entry(*aut, 0, 255u8));
        lemma_entry_range(*aut, 0, 255u8);
    }
    let len = input.len();
    for i in 0..len
        invariant
            aut.wf(),
            aut.fits(),
            n == aut.states@.len(),
            n >= 1,
            is_resolved_table(*aut, t@),
            len == input@.len(),
            s as int == walk_from(*aut, t@, start_state(*aut, t@), input@.take(i as int)),
            s <= n,
    {
        proof {
            assert(input@.take(i + 1).drop_last() =~= input@.take(i as int));
            assert(input@.take(i + 1).last() == input@[i as int]);
        }
        if s < n {
            let b = input[i];
            proof {
                assert((s as int) * alphabet_size() + (b as int) < 256 * aut.n_states())
                    by (nonlinear_arith)
                    requires
                        0 <= (s as int) < aut.n_states(),
                        0 <= (b as int) < 256,
                ;
            }
            s = t[s * 256 + b as usize];
            proof {
                lemma_step_eq(*aut, t@, walk_from(*aut, t@, start_state(*aut, t@), input@.take(i as int)), b);
            }
        }
    }
    proof {
        assert(input@.take(len as int) =~= input@);
    }
    let accepted = if s < n {
        match aut.states[s].kind {
            StateKind::Accept => true,
            StateKind::Normal => false,
        }
    } else {
        false
    };
    (s, accepted)
}

/// Runs the emitted substring variant's walk: besides the terminal state
/// and acceptance, returns the collected buffer — each byte whose step
/// landed in the extraction state, in input order.
pub fn run_substring_matcher(aut: &Automaton, t: &Vec<usize>, input: &Vec<u8>) -> (r: (
    usize,
    bool,
    Vec<u8>,
))
    requires
        aut.wf(),
        aut.fits(),
        aut.n_states() >= 1,
        is_resolved_table(*aut, t@),
        aut.substring_boundary is Some,
    ensures
        r.0 as int == final_state(*aut, t@, input@),
        r.1 == matcher_accepts(*aut, t@, input@),
        r.2@ == collected(*aut, t@, input@),
{
    let n = aut.states.len();
    let ex: usize = match aut.extraction_state_id() {
        Option::Some(e) => e,
        Option::None => 0,
    };
    proof {
        assert(ex as int == aut.extraction_state()->Some_0 as int);
        assert(255int < 256 * aut.n_states()) by (nonlinear_arith)
            requires
                aut.n_states() >= 1,
        ;
        assert(0 * alphabet_size() + 255int == 255int);
    }
    let mut s: usize = t[255];
    proof {
        assert(t@[255] as int == crate::table::resolved_entry(*aut, 0, 255u8));
        lemma_entry_range(*aut, 0, 255u8);
    }
    let mut buf: Vec<u8> = Vec::new();
    let len = input.len();
    for i in 0..len
        invariant
            aut.wf(),
            aut.fits(),
            n == aut.states@.len(),
            n >= 1,
            is_resolved_table(*aut, t@),
            len == input@.len(),
            ex as int == aut.extraction_state()->Some_0 as int,
            s as int == walk_from(*aut, t@, start_state(*aut, t@), input@.take(i as int)),
            s <= n,
            buf@ == collected_from(
                *aut,
                t@,
                start_state(*aut, t@),
                ex as int,
                input@.take(i as int),
            ),
    {
        proof {
            assert(input@.take(i + 1).drop_last() =~= input@.take(i as int));
            assert(input@.take(i + 1).last() == input@[i as int]);
        }
        let b = input[i];
        if s < n {
            proof {
                assert((s as int) * alphabet_size() + (b as int) < 256 * aut.n_states())
                    by (nonlinear_arith)
                    requires
                        0 <= (s as int) < aut.n_states(),
                        0 <= (b as int) < 256,
                ;
            }
            s = t[s * 256 + b as usize];
            proof {
                lemma_step_eq(*aut, t@, walk_from(*aut, t@, start_state(*aut, t@), input@.take(i as int)), b);
            }
        }
        if s == ex {
            buf.push(b);
        }
        proof {
            assert(buf@ =~= collected_from(
                *aut,
                t@,
                start_state(*aut, t@),
                ex as int,
                input@.take(i + 1),
            ));
        }
    }
    proof {
        assert(input@.take(len as int) =~= input@);
    }
    let accepted = if s < n {
        match aut.states[s].kind {
            StateKind::Accept => true,
            StateKind::Normal => false,
        }
    } else {
        false
    };
    (s, accepted, buf)
}

} // verus!
