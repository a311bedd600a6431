//! Indentation of the emitted table-construction statements: every
//! non-blank line of a text gains four leading spaces, blank lines are kept
//! as they are, and the line structure is unchanged.

use vstd::prelude::*;

verus! {

use vstd::string::StrSliceExecFns;
use vstd::string::StringExecFns;

/// A character that does not stop a line from counting as blank: exactly
/// the code points with the Unicode `White_Space` property, the set that
/// `str::trim` removes.
pub open spec fn is_blank_char(c: char) -> bool {
    let u = c as int;
    ||| (0x09 <= u && u <= 0x0D)
    ||| u == 0x20
    ||| u == 0x85
    ||| u == 0xA0
    ||| u == 0x1680
    ||| (0x2000 <= u && u <= 0x200A)
    ||| u == 0x2028
    ||| u == 0x2029
    ||| u == 0x202F
    ||| u == 0x205F
    ||| u == 0x3000
}

/// A line counts as blank when it holds only whitespace, so its `str::trim`
/// would be empty.
pub open spec fn line_blank(l: Seq<char>) -> bool {
    forall|i: int| 0 <= i < l.len() ==> is_blank_char(#[trigger] l[i])
}

/// Decides `is_blank_char` at run time.
fn blank_char(c: char) -> (b: bool)
    ensures
        b == is_blank_char(c),
{
    let u = c as u32;
    (0x09 <= u && u <= 0x0D) || u == 0x20 || u == 0x85 || u == 0xA0 || u == 0x1680 || (0x2000 <= u
        && u <= 0x200A) || u == 0x2028 || u == 0x2029 || u == 0x202F || u == 0x205F || u == 0x3000
}

/// One line after indentation: blank lines are kept, others gain four
/// leading spaces.
pub open spec fn indent_line(l: Seq<char>) -> Seq<char> {
    if line_blank(l) {
        l
    } else {
        seq![' ', ' ', ' ', ' '] + l
    }
}

/// Position of the first newline of `s`, or a negative value when there is
/// none.
pub open spec fn find_nl(s: Seq<char>) -> int
    decreases s.len(),
{
    if s.len() == 0 {
        -1
    } else if s[0] == '\n' {
        0
    } else {
        let r = find_nl(s.drop_first());
        if r < 0 {
            -1
        } else {
            r + 1
        }
    }
}

/// The whole text after indentation, line by line.
pub open spec fn indent_spec(s: Seq<char>) -> Seq<char>
    decreases s.len(),
{
    let k = find_nl(s);
    if 0 <= k < s.len() {
        indent_line(s.take(k)) + seq!['\n'] + indent_spec(s.skip(k + 1))
    } else {
        indent_line(s)
    }
}

/// What `find_nl` returns: a negative value exactly when `s` has no newline,
/// and otherwise the position of the first one.
pub proof fn lemma_find_nl(s: Seq<char>)
    ensures
        find_nl(s) < 0 ==> forall|i: int| 0 <= i < s.len() ==> s[i] != '\n',
        find_nl(s) >= 0 ==> 0 <= find_nl(s) < s.len() && s[find_nl(s)] == '\n' && forall|i: int|
            0 <= i < find_nl(s) ==> s[i] != '\n',
    decreases s.len(),
{
    if s.len() > 0 && s[0] != '\n' {
        lemma_find_nl(s.drop_first());
        assert forall|i: int| 0 <= i < s.len() && find_nl(s) < 0 implies s[i] != '\n' by {
            if i > 0 {
                assert(s.drop_first()[i - 1] == s[i]);
            }
        }
        assert forall|i: int| 0 <= i < find_nl(s) implies s[i] != '\n' by {
            if i > 0 {
                assert(s.drop_first()[i - 1] == s[i]);
            }
        }
    }
}

/// Four leading spaces onto every non-blank line, keeping blank lines and
/// the line structure intact.
pub fn indent(s: &str) -> (r: String)
    ensures
        r@ == indent_spec(s@),
{
    let n = s.unicode_len();
    let mut out = String::new();
    let mut start: usize = 0;
    let mut done = false;
    proof {
        assert(s@.skip(0) =~= s@);
        assert(out@ + indent_spec(s@) =~= indent_spec(s@));
    }
    while !done
        invariant
            n == s@.len(),
            start <= n,
            !done ==> out@ + indent_spec(s@.skip(start as int)) == indent_spec(s@),
            done ==> out@ == indent_spec(s@),
        decreases n - start + (if done {
            0int
        } else {
            1int
        }),
    {
        let ghost rest = s@.skip(start as int);
        let mut e = start;
        let mut blank = true;
        while e < n && s.get_char(e) != '\n'
            invariant
                n == s@.len(),
                start <= e <= n,
                forall|i: int| start <= i < e ==> s@[i] != '\n',
                blank <==> forall|i: int| start <= i < e ==> is_blank_char(#[trigger] s@[i]),
            decreases n - e,
        {
            let c = s.get_char(e);
            if !blank_char(c) {
                blank = false;
            }
            e = e + 1;
        }
        let ghost line = s@.subrange(start as int, e as int);
        proof {
            lemma_find_nl(rest);
            assert forall|i: int| 0 <= i < e - start implies rest[i] == s@[start + i] by {}
            if e < n {
                // the newline found by the scan is the first one of `rest`
                assert(rest[e - start] == s@[e as int]);
                if find_nl(rest) < 0 {
                    assert(rest[e - start] != '\n');
                }
                if 0 <= find_nl(rest) < e - start {
                    assert(s@[start + find_nl(rest)] == '\n');
                }
                if find_nl(rest) > e - start {
                    assert(rest[e - start] != '\n');
                }
                assert(find_nl(rest) == e - start);
            } else {
                if find_nl(rest) >= 0 {
                    assert(s@[start + find_nl(rest)] == '\n');
                }
                assert(find_nl(rest) < 0);
            }
            assert(rest.take(e - start) =~= line);
            assert(line_blank(line) <==> blank) by {
                if blank {
                    assert forall|i: int| 0 <= i < line.len() implies is_blank_char(
                        #[trigger] line[i],
                    ) by {
                        assert(line[i] == s@[start + i]);
                    }
                } else {
                    assert(exists|i: int| start <= i < e && !is_blank_char(#[trigger] s@[i]));
                    let i = choose|i: int| start <= i < e && !is_blank_char(#[trigger] s@[i]);
                    assert(line[i - start] == s@[i]);
                }
            }
        }
        if !blank {
            out.append("    ");
            proof {
                reveal_strlit("    ");
                assert("    "@ =~= seq![' ', ' ', ' ', ' ']);
            }
        }
        out.append(s.substring_char(start, e));
        if e < n {
            out.append("\n");
            proof {
                reveal_strlit("\n");
                assert("\n"@ =~= seq!['\n']);
                assert(rest.skip(e - start + 1) =~= s@.skip(e + 1));
                assert(indent_spec(rest) == indent_line(line) + seq!['\n'] + indent_spec(
                    s@.skip(e + 1),
                ));
                assert(out@ + indent_spec(s@.skip(e + 1)) =~= indent_spec(s@));
            }
            start = e + 1;
        } else {
            proof {
                assert(rest.take(e - start) =~= rest);
                assert(indent_spec(rest) == indent_line(line));
                assert(out@ =~= indent_spec(s@));
            }
            done = true;
        }
    }
    out
}

} // verus!
