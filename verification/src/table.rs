//! The table builder and the anchor resolver: the transition relation is
//! flattened into one dense array indexed by `state_id * 256 + byte`, unset
//! entries default to the start state, and under an end anchor every accept
//! row is overwritten with the reserved invalid sentinel.

use vstd::prelude::*;
use crate::automaton::Automaton;
use crate::automaton::State;
use crate::automaton::StateKind;
use crate::automaton::Transition;

verus! {

use vstd::pervasive::VecAdditionalExecFns;

/// The number of byte values; every state owns one table row of this size.
pub open spec fn alphabet_size() -> int {
    256
}

/// Some transition of state `s` moves to `d` on byte `b`.
pub open spec fn maps_to(aut: Automaton, s: int, b: u8, d: int) -> bool {
    &&& 0 <= s < aut.n_states()
    &&& exists|j: int, k: int|
        #![trigger aut.states@[s].transitions@[j].bytes@[k]]
        {
            &&& 0 <= j < aut.states@[s].transitions@.len()
            &&& 0 <= k < aut.states@[s].transitions@[j].bytes@.len()
            &&& aut.states@[s].transitions@[j].bytes@[k] == b
            &&& aut.states@[s].transitions@[j].to_state == d
        }
}

/// Determinism of a well-formed automaton: a byte decides the destination.
pub proof fn lemma_maps_to_unique(aut: Automaton, s: int, b: u8, d1: int, d2: int)
    requires
        aut.wf(),
        maps_to(aut, s, b, d1),
        maps_to(aut, s, b, d2),
    ensures
        d1 == d2,
{
    let (j1, k1) = choose|j: int, k: int|
        #![trigger aut.states@[s].transitions@[j].bytes@[k]]
        0 <= j < aut.states@[s].transitions@.len() && 0 <= k
            < aut.states@[s].transitions@[j].bytes@.len() && aut.states@[s].transitions@[j].bytes@[k]
            == b && aut.states@[s].transitions@[j].to_state == d1;
    let (j2, k2) = choose|j: int, k: int|
        #![trigger aut.states@[s].transitions@[j].bytes@[k]]
        0 <= j < aut.states@[s].transitions@.len() && 0 <= k
            < aut.states@[s].transitions@[j].bytes@.len() && aut.states@[s].transitions@[j].bytes@[k]
            == b && aut.states@[s].transitions@[j].to_state == d2;
    assert(aut.bytes_distinct_at(s));
    if j1 != j2 || k1 != k2 {
        assert(aut.states@[s].transitions@[j1].bytes@[k1]
            != aut.states@[s].transitions@[j2].bytes@[k2]);
    }
}

/// The table entry before anchor resolution: the declared destination when
/// one exists, the start state otherwise.
pub open spec fn base_entry(aut: Automaton, s: int, b: u8) -> int {
    if exists|d: int| maps_to(aut, s, b, d) {
        choose|d: int| maps_to(aut, s, b, d)
    } else {
        0
    }
}

/// The table entry after anchor resolution: under an end anchor every entry
/// of an accept row is the invalid sentinel.
pub open spec fn resolved_entry(aut: Automaton, s: int, b: u8) -> int {
    if aut.has_end_anchor && aut.is_accept(s) {
        aut.sentinel()
    } else {
        base_entry(aut, s, b)
    }
}

/// `t` is the flattened, anchor-resolved lookup table of `aut`.
pub open spec fn is_resolved_table(aut: Automaton, t: Seq<usize>) -> bool {
    &&& t.len() == alphabet_size() * aut.n_states()
    &&& forall|s: int, b: u8|
        0 <= s < aut.n_states() ==> #[trigger] t[s * alphabet_size() + b] as int == resolved_entry(
            aut,
            s,
            b,
        )
}

/// Every declared or defaulted destination is a real state, and the
/// sentinel is one beyond the highest real id; so after anchor resolution
/// each entry lies in `[0, n_states]`.
pub proof fn lemma_entry_range(aut: Automaton, s: int, b: u8)
    requires
        aut.wf(),
        0 <= s < aut.n_states(),
    ensures
        0 <= base_entry(aut, s, b) < aut.n_states() || (base_entry(aut, s, b) == 0
            && aut.n_states() == 0),
        0 <= resolved_entry(aut, s, b) <= aut.n_states(),
{
    if exists|d: int| maps_to(aut, s, b, d) {
        let d = choose|d: int| maps_to(aut, s, b, d);
        assert(maps_to(aut, s, b, d));
        let (j, k) = choose|j: int, k: int|
            #![trigger aut.states@[s].transitions@[j].bytes@[k]]
            0 <= j < aut.states@[s].transitions@.len() && 0 <= k
                < aut.states@[s].transitions@[j].bytes@.len()
                && aut.states@[s].transitions@[j].bytes@[k] == b
                && aut.states@[s].transitions@[j].to_state == d;
        assert(aut.states@[s].transitions@[j].to_state < aut.states@.len());
    }
}

/// One row of the flattening: while in the first state, consuming the
/// second moves to the third.
pub open spec fn rows_of_bytes(sid: usize, dst: usize, bytes: Seq<u8>) -> Seq<(usize, u8, usize)>
    decreases bytes.len(),
{
    if bytes.len() == 0 {
        Seq::empty()
    } else {
        rows_of_bytes(sid, dst, bytes.drop_last()) + seq![(sid, bytes.last(), dst)]
    }
}

/// The rows contributed by a prefix of one state's transitions.
pub open spec fn rows_of_transitions(sid: usize, trs: Seq<Transition>) -> Seq<(usize, u8, usize)>
    decreases trs.len(),
{
    if trs.len() == 0 {
        Seq::empty()
    } else {
        rows_of_transitions(sid, trs.drop_last()) + rows_of_bytes(
            sid,
            trs.last().to_state,
            trs.last().bytes@,
        )
    }
}

/// The rows contributed by a prefix of the state list.
pub open spec fn rows_of_states(states: Seq<State>) -> Seq<(usize, u8, usize)>
    decreases states.len(),
{
    if states.len() == 0 {
        Seq::empty()
    } else {
        rows_of_states(states.drop_last()) + rows_of_transitions(
            states.last().state_id,
            states.last().transitions@,
        )
    }
}

/// The full flattening of the transition relation, one row per declared
/// `(state, byte, destination)` triple, in declaration order.
pub open spec fn rows_spec(aut: Automaton) -> Seq<(usize, u8, usize)> {
    rows_of_states(aut.states@)
}

proof fn lemma_rows_of_bytes_elems(sid: usize, dst: usize, bytes: Seq<u8>)
    ensures
        forall|r: (usize, u8, usize)|
            rows_of_bytes(sid, dst, bytes).contains(r) <==> (r.0 == sid && r.2 == dst
                && bytes.contains(r.1)),
    decreases bytes.len(),
{
    if bytes.len() > 0 {
        lemma_rows_of_bytes_elems(sid, dst, bytes.drop_last());
        let rows = rows_of_bytes(sid, dst, bytes);
        assert forall|r: (usize, u8, usize)|
            rows.contains(r) implies (r.0 == sid && r.2 == dst && bytes.contains(r.1)) by {
            let i = choose|i: int| 0 <= i < rows.len() && rows[i] == r;
            if i < rows.len() - 1 {
                assert(rows_of_bytes(sid, dst, bytes.drop_last())[i] == r);
                assert(rows_of_bytes(sid, dst, bytes.drop_last()).contains(r));
                assert(bytes.drop_last().contains(r.1));
                let k = choose|k: int|
                    0 <= k < bytes.drop_last().len() && bytes.drop_last()[k] == r.1;
                assert(bytes[k] == r.1);
            } else {
                assert(r == (sid, bytes.last(), dst));
                assert(bytes[bytes.len() - 1] == r.1);
            }
        }
        assert forall|r: (usize, u8, usize)|
            (r.0 == sid && r.2 == dst && bytes.contains(r.1)) implies rows.contains(r) by {
            let k = choose|k: int| 0 <= k < bytes.len() && bytes[k] == r.1;
            if k < bytes.len() - 1 {
                assert(bytes.drop_last()[k] == r.1);
                assert(rows_of_bytes(sid, dst, bytes.drop_last()).contains(r));
                let i = choose|i: int|
                    0 <= i < rows_of_bytes(sid, dst, bytes.drop_last()).len() && rows_of_bytes(
                        sid,
                        dst,
                        bytes.drop_last(),
                    )[i] == r;
                assert(rows[i] == r);
            } else {
                assert(rows.last() == r);
            }
        }
    }
}

proof fn lemma_rows_of_transitions_elems(sid: usize, trs: Seq<Transition>)
    ensures
        forall|r: (usize, u8, usize)|
            rows_of_transitions(sid, trs).contains(r) <==> (r.0 == sid && exists|j: int, k: int|
                #![trigger trs[j].bytes@[k]]
                0 <= j < trs.len() && 0 <= k < trs[j].bytes@.len() && trs[j].bytes@[k]
                    == r.1 && trs[j].to_state == r.2),
    decreases trs.len(),
{
    if trs.len() > 0 {
        lemma_rows_of_transitions_elems(sid, trs.drop_last());
        lemma_rows_of_bytes_elems(sid, trs.last().to_state, trs.last().bytes@);
        let rows = rows_of_transitions(sid, trs);
        let pre = rows_of_transitions(sid, trs.drop_last());
        let tail = rows_of_bytes(sid, trs.last().to_state, trs.last().bytes@);
        assert forall|r: (usize, u8, usize)| rows.contains(r) implies (r.0 == sid && exists|
            j: int,
            k: int,
        |
            #![trigger trs[j].bytes@[k]]
            0 <= j < trs.len() && 0 <= k < trs[j].bytes@.len() && trs[j].bytes@[k]
                == r.1 && trs[j].to_state == r.2) by {
            let i = choose|i: int| 0 <= i < rows.len() && rows[i] == r;
            if i < pre.len() {
                assert(pre[i] == r);
                assert(pre.contains(r));
                let (j, k) = choose|j: int, k: int|
                    #![trigger trs.drop_last()[j].bytes@[k]]
                    0 <= j < trs.drop_last().len() && 0 <= k
                        < trs.drop_last()[j].bytes@.len() && trs.drop_last()[j].bytes@[k]
                        == r.1 && trs.drop_last()[j].to_state == r.2;
                assert(0 <= j < trs.len() && 0 <= k < trs[j].bytes@.len() && trs[j].bytes@[k]
                    == r.1 && trs[j].to_state == r.2);
            } else {
                assert(tail[i - pre.len()] == r);
                assert(tail.contains(r));
                let k = choose|k: int|
                    0 <= k < trs.last().bytes@.len() && trs.last().bytes@[k] == r.1;
                let j = trs.len() - 1;
                assert(0 <= j < trs.len() && 0 <= k < trs[j].bytes@.len() && trs[j].bytes@[k]
                    == r.1 && trs[j].to_state == r.2);
            }
        }
        assert forall|r: (usize, u8, usize)|
            (r.0 == sid && exists|j: int, k: int|
                #![trigger trs[j].bytes@[k]]
                0 <= j < trs.len() && 0 <= k < trs[j].bytes@.len() && trs[j].bytes@[k]
                    == r.1 && trs[j].to_state == r.2) implies rows.contains(r) by {
            let (j, k) = choose|j: int, k: int|
                #![trigger trs[j].bytes@[k]]
                0 <= j < trs.len() && 0 <= k < trs[j].bytes@.len() && trs[j].bytes@[k]
                    == r.1 && trs[j].to_state == r.2;
            if j < trs.len() - 1 {
                assert(trs.drop_last()[j].bytes@[k] == r.1);
                assert(pre.contains(r));
                let i = choose|i: int| 0 <= i < pre.len() && pre[i] == r;
                assert(rows[i] == r);
            } else {
                assert(trs.last().bytes@.contains(r.1));
                assert(tail.contains(r));
                let i = choose|i: int| 0 <= i < tail.len() && tail[i] == r;
                assert(rows[pre.len() + i] == r);
            }
        }
    }
}

/// The flattening lists exactly the declared transitions: a row `(s, b, d)`
/// occurs in it iff the automaton maps `(s, b)` to `d`.
pub proof fn lemma_rows_characterize(aut: Automaton)
    requires
        aut.wf(),
    ensures
        forall|r: (usize, u8, usize)|
            #[trigger] rows_spec(aut).contains(r) <==> maps_to(aut, r.0 as int, r.1, r.2 as int),
{
    lemma_rows_char_prefix(aut, aut.n_states());
    assert(aut.states@.take(aut.n_states()) =~= aut.states@);
}

proof fn lemma_rows_char_prefix(aut: Automaton, n: int)
    requires
        aut.wf(),
        0 <= n <= aut.n_states(),
    ensures
        forall|r: (usize, u8, usize)|
            #[trigger] rows_of_states(aut.states@.take(n)).contains(r) <==> ((r.0 as int) < n
                && maps_to(aut, r.0 as int, r.1, r.2 as int)),
    decreases n,
{
    if n > 0 {
        lemma_rows_char_prefix(aut, n - 1);
        let pre_states = aut.states@.take(n - 1);
        let cur_states = aut.states@.take(n);
        assert(cur_states.drop_last() =~= pre_states);
        let st = aut.states@[n - 1];
        assert(cur_states.last() == st);
        lemma_rows_of_transitions_elems(st.state_id, st.transitions@);
        let rows = rows_of_states(cur_states);
        let pre = rows_of_states(pre_states);
        let tail = rows_of_transitions(st.state_id, st.transitions@);
        assert forall|r: (usize, u8, usize)| #[trigger] rows.contains(r) implies ((r.0 as int) < n
            && maps_to(aut, r.0 as int, r.1, r.2 as int)) by {
            let i = choose|i: int| 0 <= i < rows.len() && rows[i] == r;
            if i < pre.len() {
                assert(pre[i] == r);
                assert(pre.contains(r));
            } else {
                assert(tail[i - pre.len()] == r);
                assert(tail.contains(r));
                assert(st.state_id == n - 1);
            }
        }
        assert forall|r: (usize, u8, usize)|
            ((r.0 as int) < n && maps_to(aut, r.0 as int, r.1, r.2 as int)) implies #[trigger] rows
            .contains(r) by {
            if (r.0 as int) < n - 1 {
                assert(pre.contains(r));
                let i = choose|i: int| 0 <= i < pre.len() && pre[i] == r;
                assert(rows[i] == r);
            } else {
                assert(r.0 as int == n - 1);
                assert(st.state_id == n - 1);
                assert(tail.contains(r));
                let i = choose|i: int| 0 <= i < tail.len() && tail[i] == r;
                assert(rows[pre.len() + i] == r);
            }
        }
    }
}

/// Flattens the transition relation into its row list, one row per declared
/// `(state, byte, destination)` triple, in declaration order.
pub fn transition_rows(aut: &Automaton) -> (rows: Vec<(usize, u8, usize)>)
    ensures
        rows@ == rows_spec(*aut),
{
    let mut rows: Vec<(usize, u8, usize)> = Vec::new();
    let n = aut.states.len();
    for i in 0..n
        invariant
            n == aut.states@.len(),
            rows@ == rows_of_states(aut.states@.take(i as int)),
    {
        let st = &aut.states[i];
        let m = st.transitions.len();
        for j in 0..m
            invariant
                n == aut.states@.len(),
                i < n,
                *st == aut.states@[i as int],
                m == st.transitions@.len(),
                rows@ == rows_of_states(aut.states@.take(i as int)) + rows_of_transitions(
                    st.state_id,
                    st.transitions@.take(j as int),
                ),
        {
            let tr = &st.transitions[j];
            let l = tr.bytes.len();
            for k in 0..l
                invariant
                    n == aut.states@.len(),
                    i < n,
                    *st == aut.states@[i as int],
                    m == st.transitions@.len(),
                    j < m,
                    *tr == st.transitions@[j as int],
                    l == tr.bytes@.len(),
                    rows@ == rows_of_states(aut.states@.take(i as int)) + rows_of_transitions(
                        st.state_id,
                        st.transitions@.take(j as int),
                    ) + rows_of_bytes(st.state_id, tr.to_state, tr.bytes@.take(k as int)),
            {
                proof {
                    assert(tr.bytes@.take(k + 1).drop_last() =~= tr.bytes@.take(k as int));
                }
                rows.push((st.state_id, tr.bytes[k], tr.to_state));
            }
            proof {
                assert(tr.bytes@.take(l as int) =~= tr.bytes@);
                assert(st.transitions@.take(j + 1).drop_last() =~= st.transitions@.take(j as int));
                assert(st.transitions@.take(j + 1).last() == *tr);
            }
        }
        proof {
            assert(st.transitions@.take(m as int) =~= st.transitions@);
            assert(aut.states@.take(i + 1).drop_last() =~= aut.states@.take(i as int));
            assert(aut.states@.take(i + 1).last() == *st);
            if m == 0 {
                assert(rows_of_transitions(st.state_id, st.transitions@.take(0)) =~= Seq::<(
                    usize,
                    u8,
                    usize,
                )>::empty());
            }
            assert(rows@ =~= rows_of_states(aut.states@.take(i + 1)));
        }
    }
    proof {
        assert(aut.states@.take(n as int) =~= aut.states@);
    }
    rows
}

/// Builds the flat lookup table: `256 * n_states` entries, default `0`, and
/// `table[s * 256 + b] = d` for every declared transition row.
pub fn build_table(aut: &Automaton) -> (t: Vec<usize>)
    requires
        aut.wf(),
        aut.fits(),
    ensures
        t@.len() == alphabet_size() * aut.n_states(),
        forall|s: int, b: u8|
            0 <= s < aut.n_states() ==> #[trigger] t@[s * alphabet_size() + b] as int
                == base_entry(*aut, s, b),
{
    let n = aut.states.len();
    let size = 256 * n;
    let mut t: Vec<usize> = Vec::new();
    let mut z: usize = 0;
    while z < size
        invariant
            size == 256 * n,
            t@.len() == z <= size,
            forall|i: int| 0 <= i < z ==> t@[i] == 0,
        decreases size - z,
    {
        t.push(0);
        z = z + 1;
    }
    let rows = transition_rows(aut);
    proof {
        lemma_rows_characterize(*aut);
    }
    let m = rows.len();
    for ri in 0..m
        invariant
            n == aut.states@.len(),
            aut.wf(),
            aut.fits(),
            m == rows@.len(),
            rows@ == rows_spec(*aut),
            forall|r: (usize, u8, usize)|
                #[trigger] rows_spec(*aut).contains(r) <==> maps_to(*aut, r.0 as int, r.1, r.2 as int),
            t@.len() == 256 * n,
            forall|s: int, b: u8|
                0 <= s < n && (forall|rj: int|
                    0 <= rj < ri ==> !((#[trigger] rows@[rj]).0 == s as usize && rows@[rj].1 == b))
                    ==> #[trigger] t@[s * 256 + b] == 0,
            forall|s: int, b: u8, rj: int|
                #![trigger t@[s * 256 + b], rows@[rj]]
                0 <= s < n && 0 <= rj < ri && rows@[rj].0 == s as usize && rows@[rj].1
                    == b ==> t@[s * 256 + b] == rows@[rj].2,
    {
        let (s, b, d) = rows[ri];
        proof {
            assert(rows@.contains(rows@[ri as int]));
            assert(maps_to(*aut, s as int, b, d as int));
            assert((s as int) < n);
            assert((s as int) * 256 + (b as int) < 256 * n) by (nonlinear_arith)
                requires
                    0 <= (s as int) < n,
                    0 <= (b as int) < 256,
            ;
        }
        let idx = s * 256 + b as usize;
        t.set(idx, d);
        proof {
            let ghost t_new = t@;
            assert forall|s2: int, b2: u8|
                0 <= s2 < n && (forall|rj: int|
                    0 <= rj < ri + 1 ==> !((#[trigger] rows@[rj]).0 == s2 as usize && rows@[rj].1
                        == b2)) implies #[trigger] t_new[s2 * 256 + b2] == 0 by {
                lemma_index_injective(n as int, s2, b2, s as int, b);
                assert(!(rows@[ri as int].0 == s2 as usize && rows@[ri as int].1 == b2));
                assert(s2 * 256 + b2 != idx);
            }
            assert forall|s2: int, b2: u8, rj: int|
                #![trigger t_new[s2 * 256 + b2], rows@[rj]]
                0 <= s2 < n && 0 <= rj < ri + 1 && rows@[rj].0 == s2 as usize
                    && rows@[rj].1 == b2 implies t_new[s2 * 256 + b2] == rows@[rj].2 by {
                lemma_index_injective(n as int, s2, b2, s as int, b);
                if s2 == s as int && b2 == b {
                    // two rows write the same cell: determinism makes them agree
                    assert(rows@.contains(rows@[rj]));
                    lemma_maps_to_unique(*aut, s2, b2, rows@[rj].2 as int, d as int);
                }
            }
        }
    }
    proof {
        assert forall|s: int, b: u8| 0 <= s < n implies #[trigger] t@[s * 256 + b] as int
            == base_entry(*aut, s, b) by {
            if exists|d: int| maps_to(*aut, s, b, d) {
                let d = choose|d: int| maps_to(*aut, s, b, d);
                assert(maps_to(*aut, s, b, d));
                lemma_entry_range(*aut, s, b);
                assert(rows_spec(*aut).contains((s as usize, b, d as usize)));
                let rj = choose|rj: int|
                    0 <= rj < rows@.len() && rows@[rj] == (s as usize, b, d as usize);
                assert(t@[s * 256 + b] == d as usize);
                lemma_maps_to_unique(*aut, s, b, d, base_entry(*aut, s, b));
                assert(maps_to(*aut, s, b, base_entry(*aut, s, b)));
            } else {
                assert forall|rj: int|
                    0 <= rj < m implies !((#[trigger] rows@[rj]).0 == s as usize && rows@[rj].1
                        == b) by {
                    if rows@[rj].0 == s as usize && rows@[rj].1 == b {
                        assert(rows@.contains(rows@[rj]));
                        assert(maps_to(*aut, s, b, rows@[rj].2 as int));
                    }
                }
            }
        }
    }
    t
}

/// Distinct `(state, byte)` pairs use distinct table indices.
proof fn lemma_index_injective(n: int, s1: int, b1: u8, s2: int, b2: u8)
    requires
        0 <= s1 < n,
        0 <= s2 < n,
    ensures
        (s1 * 256 + b1 == s2 * 256 + b2) <==> (s1 == s2 && b1 == b2),
{
    assert((s1 * 256 + b1 == s2 * 256 + b2) <==> (s1 == s2 && b1 == b2)) by (nonlinear_arith)
        requires
            0 <= s1,
            0 <= s2,
            0 <= (b1 as int) < 256,
            0 <= (b2 as int) < 256,
    ;
}

/// Resolves the end anchor: when `has_end_anchor` is set, every entry of
/// every accept state's row is overwritten with the invalid sentinel, so any
/// byte consumed after acceptance leaves the accept set for good.
pub fn resolve_end_anchor(aut: &Automaton, t: &mut Vec<usize>)
    requires
        aut.wf(),
        aut.fits(),
        old(t)@.len() == alphabet_size() * aut.n_states(),
    ensures
        final(t)@.len() == old(t)@.len(),
        forall|s: int, b: u8|
            0 <= s < aut.n_states() ==> #[trigger] final(t)@[s * alphabet_size() + b] == (
            if aut.has_end_anchor && aut.is_accept(s) {
                aut.sentinel() as usize
            } else {
                old(t)@[s * alphabet_size() + b]
            }),
{
    if !aut.has_end_anchor {
        return ;
    }
    let n = aut.states.len();
    for i in 0..n
        invariant
            aut.wf(),
            aut.fits(),
            aut.has_end_anchor,
            n == aut.states@.len(),
            t@.len() == old(t)@.len() == 256 * n,
            forall|s: int, b: u8|
                0 <= s < n ==> #[trigger] t@[s * 256 + b] == (
                if s < i && aut.is_accept(s) {
                    n
                } else {
                    old(t)@[s * 256 + b]
                }),
    {
        let is_acc = match aut.states[i].kind {
            StateKind::Accept => true,
            StateKind::Normal => false,
        };
        if is_acc {
            let mut b: usize = 0;
            while b < 256
                invariant
                    aut.wf(),
                    aut.fits(),
                    aut.has_end_anchor,
                    n == aut.states@.len(),
                    i < n,
                    aut.is_accept(i as int),
                    b <= 256,
                    t@.len() == old(t)@.len() == 256 * n,
                    forall|s: int, b2: u8|
                        0 <= s < n ==> #[trigger] t@[s * 256 + b2] == (
                        if s < i && aut.is_accept(s) {
                            n
                        } else if s == i && (b2 as int) < b {
                            n
                        } else {
                            old(t)@[s * 256 + b2]
                        }),
                decreases 256 - b,
            {
                proof {
                    assert((i as int) * 256 + (b as int) < 256 * n) by (nonlinear_arith)
                        requires
                            0 <= (i as int) < n,
                            0 <= (b as int) < 256,
                    ;
                }
                t.set(i * 256 + b, n);
                proof {
                    assert forall|s: int, b2: u8| 0 <= s < n implies #[trigger] t@[s * 256 + b2]
                        == (if s < i && aut.is_accept(s) {
                        n
                    } else if s == i && (b2 as int) < b + 1 {
                        n
                    } else {
                        old(t)@[s * 256 + b2]
                    }) by {
                        lemma_index_injective(n as int, s, b2, i as int, b as u8);
                    }
                }
                b = b + 1;
            }
        }
    }
}

/// Builds the anchor-resolved lookup table of a well-formed automaton: the
/// table has exactly `256 * n_states` entries, entry `s * 256 + b` is the
/// resolved destination for consuming byte `b` in state `s`, and every entry
/// is a valid id in `[0, n_states]`, where `n_states` is the reserved
/// invalid sentinel.
pub fn build_resolved_table(aut: &Automaton) -> (t: Vec<usize>)
    requires
        aut.wf(),
        aut.fits(),
    ensures
        is_resolved_table(*aut, t@),
        forall|i: int| 0 <= i < t@.len() ==> #[trigger] t@[i] <= aut.n_states(),
{
    let mut t = build_table(aut);
    resolve_end_anchor(aut, &mut t);
    proof {
        let n = aut.n_states();
        assert forall|i: int| 0 <= i < t@.len() implies #[trigger] t@[i] <= n by {
            let s = i / 256;
            let b = i % 256;
            vstd::arithmetic::div_mod::lemma_fundamental_div_mod(i, 256);
            vstd::arithmetic::div_mod::lemma_mod_bound(i, 256);
            assert(0 <= s < n) by (nonlinear_arith)
                requires
                    i == 256 * s + b,
                    0 <= b < 256,
                    0 <= i < 256 * n,
            ;
            assert(t@[s * 256 + (b as u8)] as int == resolved_entry(*aut, s, b as u8));
            lemma_entry_range(*aut, s, b as u8);
        }
    }
    t
}

/// The end-anchor property: in the resolved table of an end-anchored
/// automaton, every entry of every accept state's row is the invalid
/// sentinel, which is itself never an accept state.
pub proof fn lemma_end_anchor_rows(aut: Automaton, t: Seq<usize>, a: int, b: u8)
    requires
        aut.wf(),
        is_resolved_table(aut, t),
        aut.has_end_anchor,
        aut.is_accept(a),
    ensures
        t[a * alphabet_size() + b] as int == aut.sentinel(),
        !aut.is_accept(aut.sentinel()),
{
    assert(t[a * alphabet_size() + b] as int == resolved_entry(aut, a, b));
}

} // verus!
