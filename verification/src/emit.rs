//! The code emitter: assembles the table-construction routine and the
//! driver routine(s) into one self-contained text unit for the bounded
//! byte-processing target. The output is pinned, character for character, to
//! a spec-level rendering, so generation is a pure function of the automaton
//! and its flags.
//!
//! Emission choices, stated once: unmapped bytes restart the walk at state 0
//! (restart semantics — the table's zero default is deliberate, not an
//! error sink), and without an end anchor this holds of accept rows too, so
//! trailing bytes force a byte-exact walk rather than a sticky accept; under
//! an end anchor the anchor loops are emitted after the explicit
//! assignments, so they overwrite every accept row; and the end-anchored
//! driver guards each lookup so that the walk never indexes a row of the
//! invalid sentinel, whose row the table does not hold.

use vstd::prelude::*;
use crate::automaton::Automaton;
use crate::automaton::GenError;
use crate::decimal::dec_str;
use crate::decimal::dec_string;
use crate::indent::indent;
use crate::indent::indent_spec;
use crate::table::rows_spec;
use crate::table::transition_rows;

verus! {

use vstd::string::StringExecFns;

/// One disjunct of the acceptance check.
pub open spec fn clause_text(id: usize) -> Seq<char> {
    "(s == "@ + dec_str(id as int) + ")"@
}

/// The acceptance condition: a disjunction of one equality per accept id.
pub open spec fn cond_text(ids: Seq<usize>) -> Seq<char>
    decreases ids.len(),
{
    if ids.len() == 0 {
        Seq::empty()
    } else if ids.len() == 1 {
        clause_text(ids[0])
    } else {
        cond_text(ids.drop_last()) + " | "@ + clause_text(ids.last())
    }
}

/// The per-byte step of the driver loop: a plain lookup, or, under an end
/// anchor, a lookup guarded so the invalid sentinel absorbs without being
/// looked up.
pub open spec fn step_line(aut: Automaton) -> Seq<char> {
    if aut.has_end_anchor {
        "        s = if s == "@ + dec_str(aut.sentinel()) + " { "@ + dec_str(aut.sentinel())
            + " } else { table[s * 256 + input[i] as Field] };\n"@
    } else {
        "        s = table[s * 256 + input[i] as Field];\n"@
    }
}

/// The matcher driver: sentinel pre-step, one step per input byte, then the
/// acceptance assertion carrying the terminal state as diagnostic.
pub open spec fn driver_text(aut: Automaton) -> Seq<char> {
    "global table = comptime { make_lookup_table() };\n\npub fn regex_match<let N: u32>(input: [u8; N]) {\n    // regex: "@
        + aut.pattern@
        + "\n    let mut s = 0;\n    s = table[s * 256 + 255];\n    for i in 0..input.len() {\n"@
        + step_line(aut) + "    }\n    assert("@ + cond_text(aut.accept_ids())
        + ", f\"no match: {s}\");\n}\n"@
}

/// The substring-variant driver: the same walk, plus a bounded output
/// buffer that collects each byte whose step lands in the extraction state.
pub open spec fn substring_fn_text(aut: Automaton) -> Seq<char> {
    "\npub fn regex_match_substring<let N: u32>(input: [u8; N]) -> BoundedVec<u8, N> {\n    // regex: "@
        + aut.pattern@
        + "\n    let mut substring: BoundedVec<u8, N> = BoundedVec::new();\n    let mut s = 0;\n    s = table[s * 256 + 255];\n    for i in 0..input.len() {\n"@
        + step_line(aut) + "        if s == "@ + dec_str(aut.extraction_state()->Some_0 as int)
        + " {\n            substring.push(input[i]);\n        }\n    }\n    assert("@ + cond_text(
        aut.accept_ids(),
    ) + ", f\"no match: {s}\");\n    substring\n}\n"@
}

/// One table assignment statement.
pub open spec fn stmt_text(r: (usize, u8, usize)) -> Seq<char> {
    "table["@ + dec_str(r.0 as int) + " * 256 + "@ + dec_str(r.1 as int) + "] = "@ + dec_str(
        r.2 as int,
    ) + ";\n"@
}

/// The assignment statements of a row list, in order.
pub open spec fn rows_body(rows: Seq<(usize, u8, usize)>) -> Seq<char>
    decreases rows.len(),
{
    if rows.len() == 0 {
        Seq::empty()
    } else {
        rows_body(rows.drop_last()) + stmt_text(rows.last())
    }
}

/// One anchor loop: every entry of one accept row is overwritten with the
/// invalid sentinel.
pub open spec fn anchor_stmt(a: usize, sentinel: int) -> Seq<char> {
    "for i in 0..256 {\n    table["@ + dec_str(a as int) + " * 256 + i] = "@ + dec_str(sentinel)
        + ";\n}\n"@
}

/// The anchor loops of a list of accept ids, in order.
pub open spec fn anchors_body(ids: Seq<usize>, sentinel: int) -> Seq<char>
    decreases ids.len(),
{
    if ids.len() == 0 {
        Seq::empty()
    } else {
        anchors_body(ids.drop_last(), sentinel) + anchor_stmt(ids.last(), sentinel)
    }
}

/// The anchor loops of the automaton: present only under an end anchor,
/// after the assignments, so they overwrite every accept row.
pub open spec fn anchors_text(aut: Automaton) -> Seq<char> {
    if aut.has_end_anchor {
        anchors_body(aut.accept_ids(), aut.sentinel())
    } else {
        Seq::empty()
    }
}

/// The table-construction routine: a zero-initialized array of
/// `256 * n_states` entries, the assignments, then the anchor loops.
pub open spec fn table_fn_text(aut: Automaton) -> Seq<char> {
    "\ncomptime fn make_lookup_table() -> [Field; "@ + dec_str(256 * aut.n_states())
        + "] {\n    let mut table = [0; "@ + dec_str(256 * aut.n_states()) + "];\n"@ + indent_spec(
        rows_body(rows_spec(aut)) + anchors_text(aut),
    ) + "    table\n}\n"@
}

/// The whole generated text: the matcher driver, the substring variant when
/// boundary metadata is present, and the table-construction routine.
pub open spec fn emit_spec(aut: Automaton) -> Seq<char> {
    driver_text(aut) + (match aut.substring_boundary {
        Option::Some(_) => substring_fn_text(aut),
        Option::None => Seq::empty(),
    }) + table_fn_text(aut)
}

/// Idempotence of generation: the emitted text is a pure function of the
/// automaton, its flags and its pattern text, so generating twice from the
/// same inputs yields byte-identical output.
pub proof fn lemma_generation_deterministic(aut: Automaton, out1: Seq<char>, out2: Seq<char>)
    requires
        out1 == emit_spec(aut),
        out2 == emit_spec(aut),
    ensures
        out1 == out2,
{
}

/// Renders one disjunct of the acceptance check.
fn emit_clause(id: usize) -> (r: String)
    ensures
        r@ == clause_text(id),
{
    let mut r = String::from_str("(s == ");
    let d = dec_string(id);
    r.append(d.as_str());
    r.append(")");
    r
}

/// Renders the acceptance condition over the accept ids.
fn emit_cond(ids: &Vec<usize>) -> (r: String)
    ensures
        r@ == cond_text(ids@),
{
    let mut r = String::new();
    let len = ids.len();
    for k in 0..len
        invariant
            len == ids@.len(),
            r@ == cond_text(ids@.take(k as int)),
    {
        proof {
            assert(ids@.take(k + 1).drop_last() =~= ids@.take(k as int));
            assert(ids@.take(k + 1).last() == ids@[k as int]);
        }
        if k > 0 {
            r.append(" | ");
        }
        let c = emit_clause(ids[k]);
        r.append(c.as_str());
        proof {
            assert(r@ =~= cond_text(ids@.take(k + 1)));
        }
    }
    proof {
        assert(ids@.take(len as int) =~= ids@);
    }
    r
}

/// Renders the per-byte step of the driver loop.
fn emit_step_line(aut: &Automaton, n: usize) -> (r: String)
    requires
        n == aut.states@.len(),
    ensures
        r@ == step_line(*aut),
{
    if aut.has_end_anchor {
        let mut r = String::from_str("        s = if s == ");
        let d = dec_string(n);
        r.append(d.as_str());
        r.append(" { ");
        r.append(d.as_str());
        r.append(" } else { table[s * 256 + input[i] as Field] };\n");
        r
    } else {
        String::from_str("        s = table[s * 256 + input[i] as Field];\n")
    }
}

/// Renders one table assignment statement.
fn emit_stmt(row: (usize, u8, usize)) -> (r: String)
    ensures
        r@ == stmt_text(row),
{
    let mut r = String::from_str("table[");
    let d0 = dec_string(row.0);
    r.append(d0.as_str());
    r.append(" * 256 + ");
    let d1 = dec_string(row.1 as usize);
    r.append(d1.as_str());
    r.append("] = ");
    let d2 = dec_string(row.2);
    r.append(d2.as_str());
    r.append(";\n");
    r
}

/// Renders one anchor loop.
fn emit_anchor_stmt(a: usize, sentinel: usize) -> (r: String)
    ensures
        r@ == anchor_stmt(a, sentinel as int),
{
    let mut r = String::from_str("for i in 0..256 {\n    table[");
    let d0 = dec_string(a);
    r.append(d0.as_str());
    r.append(" * 256 + i] = ");
    let d1 = dec_string(sentinel);
    r.append(d1.as_str());
    r.append(";\n}\n");
    r
}

/// Renders the matcher driver.
fn emit_driver(aut: &Automaton, ids: &Vec<usize>, n: usize) -> (r: String)
    requires
        n == aut.states@.len(),
        ids@ == aut.accept_ids(),
    ensures
        r@ == driver_text(*aut),
{
    let mut r = String::from_str(
        "global table = comptime { make_lookup_table() };\n\npub fn regex_match<let N: u32>(input: [u8; N]) {\n    // regex: ",
    );
    r.append(aut.pattern.as_str());
    r.append("\n    let mut s = 0;\n    s = table[s * 256 + 255];\n    for i in 0..input.len() {\n");
    let step = emit_step_line(aut, n);
    r.append(step.as_str());
    r.append("    }\n    assert(");
    let cond = emit_cond(ids);
    r.append(cond.as_str());
    r.append(", f\"no match: {s}\");\n}\n");
    r
}

/// Renders the substring-variant driver.
fn emit_substring_fn(aut: &Automaton, ids: &Vec<usize>, n: usize) -> (r: String)
    requires
        n == aut.states@.len(),
        ids@ == aut.accept_ids(),
        aut.wf(),
        aut.substring_boundary is Some,
    ensures
        r@ == substring_fn_text(*aut),
{
    let ex: usize = match aut.extraction_state_id() {
        Option::Some(e) => e,
        Option::None => 0,
    };
    proof {
        assert(ex == aut.extraction_state()->Some_0);
    }
    let mut r = String::from_str(
        "\npub fn regex_match_substring<let N: u32>(input: [u8; N]) -> BoundedVec<u8, N> {\n    // regex: ",
    );
    r.append(aut.pattern.as_str());
    r.append(
        "\n    let mut substring: BoundedVec<u8, N> = BoundedVec::new();\n    let mut s = 0;\n    s = table[s * 256 + 255];\n    for i in 0..input.len() {\n",
    );
    let step = emit_step_line(aut, n);
    r.append(step.as_str());
    r.append("        if s == ");
    let d = dec_string(ex);
    r.append(d.as_str());
    r.append(" {\n            substring.push(input[i]);\n        }\n    }\n    assert(");
    let cond = emit_cond(ids);
    r.append(cond.as_str());
    r.append(", f\"no match: {s}\");\n    substring\n}\n");
    r
}

/// Renders the table-construction routine.
fn emit_table_fn(aut: &Automaton, ids: &Vec<usize>, n: usize) -> (r: String)
    requires
        n == aut.states@.len(),
        ids@ == aut.accept_ids(),
        aut.wf(),
        aut.fits(),
    ensures
        r@ == table_fn_text(*aut),
{
    let size = 256 * n;
    let rows = transition_rows(aut);
    let mut body = String::new();
    let m = rows.len();
    for ri in 0..m
        invariant
            m == rows@.len(),
            rows@ == rows_spec(*aut),
            body@ == rows_body(rows@.take(ri as int)),
    {
        proof {
            assert(rows@.take(ri + 1).drop_last() =~= rows@.take(ri as int));
            assert(rows@.take(ri + 1).last() == rows@[ri as int]);
        }
        let st = emit_stmt(rows[ri]);
        body.append(st.as_str());
        proof {
            assert(body@ =~= rows_body(rows@.take(ri + 1)));
        }
    }
    proof {
        assert(rows@.take(m as int) =~= rows@);
    }
    if aut.has_end_anchor {
        let k = ids.len();
        for a in 0..k
            invariant
                k == ids@.len(),
                ids@ == aut.accept_ids(),
                n == aut.states@.len(),
                aut.has_end_anchor,
                body@ == rows_body(rows_spec(*aut)) + anchors_body(
                    ids@.take(a as int),
                    aut.sentinel(),
                ),
        {
            proof {
                assert(ids@.take(a + 1).drop_last() =~= ids@.take(a as int));
                assert(ids@.take(a + 1).last() == ids@[a as int]);
            }
            let stmt = emit_anchor_stmt(ids[a], n);
            body.append(stmt.as_str());
            proof {
                assert(body@ =~= rows_body(rows_spec(*aut)) + anchors_body(
                    ids@.take(a + 1),
                    aut.sentinel(),
                ));
            }
        }
        proof {
            assert(ids@.take(k as int) =~= ids@);
        }
    }
    proof {
        assert(body@ =~= rows_body(rows_spec(*aut)) + anchors_text(*aut));
    }
    let indented = indent(body.as_str());
    let mut r = String::from_str("\ncomptime fn make_lookup_table() -> [Field; ");
    let d = dec_string(size);
    r.append(d.as_str());
    r.append("] {\n    let mut table = [0; ");
    r.append(d.as_str());
    r.append("];\n");
    r.append(indented.as_str());
    r.append("    table\n}\n");
    r
}

/// Generates the whole output text for a well-formed automaton: the matcher
/// driver, the substring variant when boundary metadata is present, and the
/// table-construction routine — or the first violated generation-time
/// invariant. Success is decided exactly by the generation-time checks, and
/// on success the text is exactly `emit_spec` of the automaton.
pub fn to_noir_fn(aut: &Automaton, forbid_accept_transitions: bool) -> (r: Result<
    String,
    GenError,
>)
    requires
        aut.wf(),
        aut.fits(),
    ensures
        match r {
            Result::Ok(code) => aut.valid(forbid_accept_transitions) && code@ == emit_spec(*aut),
            Result::Err(e) => !aut.valid(forbid_accept_transitions) && e == aut.first_violation(
                forbid_accept_transitions,
            ),
        },
{
    match aut.validate(forbid_accept_transitions) {
        Result::Err(e) => {
            return Result::Err(e);
        },
        Result::Ok(_) => {},
    }
    let ids = match aut.accept_state_ids() {
        Result::Ok(ids) => ids,
        Result::Err(e) => {
            proof {
                assert(false);
            }
            return Result::Err(e);
        },
    };
    let n = aut.states.len();
    let mut out = emit_driver(aut, &ids, n);
    let has_substring = match &aut.substring_boundary {
        Option::Some(_) => true,
        Option::None => false,
    };
    if has_substring {
        let sub = emit_substring_fn(aut, &ids, n);
        out.append(sub.as_str());
    }
    let table_fn = emit_table_fn(aut, &ids, n);
    out.append(table_fn.as_str());
    proof {
        assert(out@ =~= emit_spec(*aut));
    }
    Result::Ok(out)
}

} // verus!
