//! Code generation: one assembly statement block per canonical entry, with
//! a loop-nesting stack pairing begin-loop and end-loop labels.

use vstd::prelude::*;
use vstd::math::min;
use vstd::string::{StrSliceExecFns, StringExecFns};
use crate::symbols::{Run, Symbol, SymbolCount};
use crate::text::{dec_chars, dec_string, spec_find, find_marker, lemma_find_characterization};

verus! {

/// The ways a compilation can fail. Each kind is terminal: nothing is
/// retried and no output is produced for the run.
#[derive(Clone, Copy, PartialEq, Eq, Debug, Structural)]
pub enum CompileError {
    /// The boilerplate template is missing a required marker: a packaging
    /// defect, not a user error.
    InvalidBoilerplate,
    /// An end-loop entry was met while no begin-loop was open.
    UnmatchedEndLoop,
    /// A begin-loop entry was still open when the stream ended.
    UnmatchedBeginLoop,
}

impl CompileError {
    /// A human-readable description of the failure.
    pub fn message(self) -> (r: &'static str)
        ensures
            self == CompileError::InvalidBoilerplate ==> r@ == "Boilerplate code invalid"@,
            self == CompileError::UnmatchedEndLoop ==> r@ == "Unmatched ']'"@,
            self == CompileError::UnmatchedBeginLoop ==> r@ == "Unmatched '['"@,
    {
        match self {
            CompileError::InvalidBoilerplate => "Boilerplate code invalid",
            CompileError::UnmatchedEndLoop => "Unmatched ']'",
            CompileError::UnmatchedBeginLoop => "Unmatched '['",
        }
    }
}

/// The statement emitted for a non-loop entry, newline-terminated.
pub open spec fn line_for(r: Run) -> Seq<char> {
    if r.sym == Symbol::Right {
        "add rbx, "@ + dec_chars(r.count as nat) + "\n"@
    } else if r.sym == Symbol::Left {
        "sub rbx, "@ + dec_chars(r.count as nat) + "\n"@
    } else if r.sym == Symbol::Incr {
        "add byte [d + rbx], "@ + dec_chars(r.count as nat) + "\n"@
    } else if r.sym == Symbol::Decr {
        "sub byte [d + rbx], "@ + dec_chars(r.count as nat) + "\n"@
    } else if r.sym == Symbol::Out {
        "call print\n"@
    } else {
        "call read\n"@
    }
}

/// The block emitted when a loop opens: its start label, the zero test,
/// and the conditional jump to its paired end label.
pub open spec fn start_loop_lines(label: nat) -> Seq<char> {
    "loop_start_"@ + dec_chars(label) + ":\ncmp byte [d + rbx], 0\nje loop_end_"@ + dec_chars(
        label,
    ) + "\n"@
}

/// The block emitted when a loop closes: the back jump and the end label.
pub open spec fn end_loop_lines(label: nat) -> Seq<char> {
    "jmp loop_start_"@ + dec_chars(label) + "\nloop_end_"@ + dec_chars(label) + ":\n"@
}

/// The generator walked over a stream: the emitted text, the next fresh
/// label, and the labels of the loops still open — or `None` when an
/// end-loop entry is met while no loop is open.
pub open spec fn gen_runs(s: Seq<Run>, counter: nat, stack: Seq<nat>) -> Option<
    (Seq<char>, nat, Seq<nat>),
>
    decreases s.len(),
{
    if s.len() == 0 {
        Some((Seq::empty(), counter, stack))
    } else {
        let r = s.first();
        if r.sym == Symbol::StartLoop {
            match gen_runs(s.drop_first(), counter + 1, stack.push(counter)) {
                Some((t, c2, st2)) => Some((start_loop_lines(counter) + t, c2, st2)),
                None => None,
            }
        } else if r.sym == Symbol::EndLoop {
            if stack.len() == 0 {
                None
            } else {
                match gen_runs(s.drop_first(), counter, stack.drop_last()) {
                    Some((t, c2, st2)) => Some((end_loop_lines(stack.last()) + t, c2, st2)),
                    None => None,
                }
            }
        } else {
            match gen_runs(s.drop_first(), counter, stack) {
                Some((t, c2, st2)) => Some((line_for(r) + t, c2, st2)),
                None => None,
            }
        }
    }
}

/// What code generation owes for a whole stream: the generated body, or
/// the loop-pairing error the stream forces.
pub open spec fn gen_output(s: Seq<Run>) -> Result<Seq<char>, CompileError> {
    match gen_runs(s, 0, Seq::empty()) {
        None => Err(CompileError::UnmatchedEndLoop),
        Some((t, c, st)) => if st.len() == 0 {
            Ok(t)
        } else {
            Err(CompileError::UnmatchedBeginLoop)
        },
    }
}

/// A returned string, at the level of its character sequence.
pub open spec fn result_chars(r: Result<String, CompileError>) -> Result<
    Seq<char>,
    CompileError,
> {
    match r {
        Ok(s) => Ok(s@),
        Err(e) => Err(e),
    }
}

/// The label stack of the executable generator, at the spec level.
pub open spec fn stack_view(s: Seq<usize>) -> Seq<nat> {
    s.map_values(|x: usize| x as nat)
}

/// Splicing a prefix of already-emitted text onto a generator result.
pub open spec fn gen_compose(prefix: Seq<char>, rest: Option<(Seq<char>, nat, Seq<nat>)>) -> Option<
    (Seq<char>, nat, Seq<nat>),
> {
    match rest {
        Some((t, c, st)) => Some((prefix + t, c, st)),
        None => None,
    }
}

/// The number of begin-loop entries in a stream.
pub open spec fn begin_count(s: Seq<Run>) -> nat
    decreases s.len(),
{
    if s.len() == 0 {
        0
    } else {
        (if s.first().sym == Symbol::StartLoop {
            1nat
        } else {
            0nat
        }) + begin_count(s.drop_first())
    }
}

/// A strictly increasing label stack: the innermost open loop holds the
/// highest label.
pub open spec fn ascending(st: Seq<nat>) -> bool {
    forall|a: int, b: int| 0 <= a < b < st.len() ==> st[a] < st[b]
}

/// All pending labels lie below the next fresh label.
pub open spec fn below(st: Seq<nat>, c: nat) -> bool {
    forall|a: int| 0 <= a < st.len() ==> st[a] < c
}

/// Labels are assigned in source order: generation over a stream advances
/// the fresh-label counter by exactly the number of begin-loop entries.
pub proof fn lemma_gen_labels(s: Seq<Run>, counter: nat, stack: Seq<nat>)
    ensures
        gen_runs(s, counter, stack) matches Some((t, c2, st2)) ==> c2 == counter + begin_count(
            s,
        ),
    decreases s.len(),
{
    if s.len() > 0 {
        let r = s.first();
        if r.sym == Symbol::StartLoop {
            lemma_gen_labels(s.drop_first(), counter + 1, stack.push(counter));
        } else if r.sym == Symbol::EndLoop {
            if stack.len() > 0 {
                lemma_gen_labels(s.drop_first(), counter, stack.drop_last());
            }
        } else {
            lemma_gen_labels(s.drop_first(), counter, stack);
        }
    }
}

/// Strict nesting of labels: a stack of increasing labels below the
/// counter stays increasing and below the advanced counter, so at every
/// point the innermost open loop carries the highest pending label.
pub proof fn lemma_gen_stack_nesting(s: Seq<Run>, counter: nat, stack: Seq<nat>)
    requires
        ascending(stack),
        below(stack, counter),
    ensures
        gen_runs(s, counter, stack) matches Some((t, c2, st2)) ==> ascending(st2) && below(
            st2,
            c2,
        ) && counter <= c2,
    decreases s.len(),
{
    if s.len() > 0 {
        let r = s.first();
        if r.sym == Symbol::StartLoop {
            let pushed = stack.push(counter);
            assert(ascending(pushed)) by {
                assert(forall|a: int|
                    0 <= a < stack.len() ==> pushed[a] == stack[a] && stack[a] < counter);
            }
            assert(below(pushed, counter + 1));
            lemma_gen_stack_nesting(s.drop_first(), counter + 1, pushed);
        } else if r.sym == Symbol::EndLoop {
            if stack.len() > 0 {
                assert(forall|a: int|
                    0 <= a < stack.len() - 1 ==> stack.drop_last()[a] == stack[a]);
                lemma_gen_stack_nesting(s.drop_first(), counter, stack.drop_last());
            }
        } else {
            lemma_gen_stack_nesting(s.drop_first(), counter, stack);
        }
    }
}

/// Label pairing for a generated stream with `k` begin-loop entries: the
/// generated labels are exactly `0 .. k-1`, handed out in source order of
/// the begin-loops, and the pending labels are strictly increasing at
/// every point, so each end-loop closes the loop with the highest pending
/// label — the innermost one.
pub proof fn lemma_label_pairing(s: Seq<Run>)
    ensures
        gen_runs(s, 0, Seq::empty()) matches Some((t, c2, st2)) ==> c2 == begin_count(s)
            && ascending(st2) && below(st2, c2),
{
    lemma_gen_labels(s, 0, Seq::empty());
    lemma_gen_stack_nesting(s, 0, Seq::empty());
}

/// The loop-depth contribution of one entry.
pub open spec fn loop_depth_delta(r: Run) -> int {
    if r.sym == Symbol::StartLoop {
        1
    } else if r.sym == Symbol::EndLoop {
        -1
    } else {
        0
    }
}

/// The lowest loop-nesting depth reached over all prefixes of a stream,
/// starting from depth 0. It is negative exactly when some prefix holds
/// more end-loop than begin-loop entries.
pub open spec fn min_depth(s: Seq<Run>) -> int
    decreases s.len(),
{
    if s.len() == 0 {
        0
    } else {
        min(0, loop_depth_delta(s.first()) + min_depth(s.drop_first()))
    }
}

/// Generation fails exactly when the open loops cannot cover the deepest
/// end-loop excess of the stream.
pub proof fn lemma_gen_none_iff_unmatched(s: Seq<Run>, counter: nat, stack: Seq<nat>)
    ensures
        gen_runs(s, counter, stack) is None <==> stack.len() + min_depth(s) < 0,
    decreases s.len(),
{
    if s.len() > 0 {
        let r = s.first();
        if r.sym == Symbol::StartLoop {
            lemma_gen_none_iff_unmatched(s.drop_first(), counter + 1, stack.push(counter));
        } else if r.sym == Symbol::EndLoop {
            if stack.len() > 0 {
                lemma_gen_none_iff_unmatched(s.drop_first(), counter, stack.drop_last());
            }
        } else {
            lemma_gen_none_iff_unmatched(s.drop_first(), counter, stack);
        }
    }
}

/// The number of end-loop entries in a stream.
pub open spec fn end_count(s: Seq<Run>) -> nat
    decreases s.len(),
{
    if s.len() == 0 {
        0
    } else {
        (if s.first().sym == Symbol::EndLoop {
            1nat
        } else {
            0nat
        }) + end_count(s.drop_first())
    }
}

/// The lowest depth is the least value, over all prefixes, of the number
/// of begin-loop entries minus the number of end-loop entries.
pub proof fn lemma_min_depth_is_min(s: Seq<Run>)
    ensures
        forall|k: int|
            0 <= k <= s.len() ==> min_depth(s) <= begin_count(#[trigger] s.take(k)) - end_count(
                s.take(k),
            ),
        exists|k: int|
            0 <= k <= s.len() && min_depth(s) == begin_count(#[trigger] s.take(k)) - end_count(
                s.take(k),
            ),
    decreases s.len(),
{
    assert(s.take(0) =~= Seq::<Run>::empty());
    if s.len() == 0 {
        assert(forall|k: int| 0 <= k <= s.len() ==> #[trigger] s.take(k) =~= s.take(0));
        assert(min_depth(s) == begin_count(s.take(0)) - end_count(s.take(0)));
    } else {
        let tail = s.drop_first();
        lemma_min_depth_is_min(tail);
        assert forall|k: int| 1 <= k <= s.len() implies begin_count(#[trigger] s.take(k))
            - end_count(s.take(k)) == loop_depth_delta(s.first()) + (begin_count(
            tail.take(k - 1),
        ) - end_count(tail.take(k - 1))) by {
            assert(s.take(k).first() == s.first());
            assert(s.take(k).drop_first() =~= tail.take(k - 1));
        }
        if min_depth(s) == 0 {
            assert(min_depth(s) == begin_count(s.take(0)) - end_count(s.take(0)));
        } else {
            let k0 = choose|k: int|
                0 <= k <= tail.len() && min_depth(tail) == begin_count(#[trigger] tail.take(k))
                    - end_count(tail.take(k));
            assert(min_depth(s) == begin_count(s.take(k0 + 1)) - end_count(s.take(k0 + 1)));
        }
    }
}

/// Unmatched end-loop detection: generation reports the unmatched
/// end-loop error exactly when some prefix of the stream holds more
/// end-loop than begin-loop entries — an end-loop with no preceding
/// unpaired begin-loop — and then no output is produced.
pub proof fn lemma_unmatched_end_detection(s: Seq<Run>)
    ensures
        gen_output(s) == Err::<Seq<char>, CompileError>(CompileError::UnmatchedEndLoop)
            <==> (exists|k: int|
            0 <= k <= s.len() && end_count(#[trigger] s.take(k)) > begin_count(s.take(k))),
{
    lemma_gen_none_iff_unmatched(s, 0, Seq::empty());
    lemma_min_depth_is_min(s);
    if min_depth(s) < 0 {
        let k0 = choose|k: int|
            0 <= k <= s.len() && min_depth(s) == begin_count(#[trigger] s.take(k)) - end_count(
                s.take(k),
            );
        assert(end_count(s.take(k0)) > begin_count(s.take(k0)));
    }
}

/// Generation leaves open exactly the loops the stream does not close.
proof fn lemma_gen_stack_len(s: Seq<Run>, counter: nat, stack: Seq<nat>)
    ensures
        gen_runs(s, counter, stack) matches Some((t, c2, st2)) ==> st2.len() == stack.len()
            + begin_count(s) - end_count(s),
    decreases s.len(),
{
    if s.len() > 0 {
        let r = s.first();
        if r.sym == Symbol::StartLoop {
            lemma_gen_stack_len(s.drop_first(), counter + 1, stack.push(counter));
        } else if r.sym == Symbol::EndLoop {
            if stack.len() > 0 {
                lemma_gen_stack_len(s.drop_first(), counter, stack.drop_last());
            }
        } else {
            lemma_gen_stack_len(s.drop_first(), counter, stack);
        }
    }
}

/// Success is owed exactly for balanced streams: generation returns the
/// body when no prefix holds more end-loop than begin-loop entries and the
/// whole stream holds equally many of each — and fails otherwise.
pub proof fn lemma_balanced_streams_generate(s: Seq<Run>)
    ensures
        gen_output(s) is Ok <==> ((forall|k: int|
            0 <= k <= s.len() ==> end_count(#[trigger] s.take(k)) <= begin_count(s.take(k)))
            && begin_count(s) == end_count(s)),
{
    lemma_gen_none_iff_unmatched(s, 0, Seq::empty());
    lemma_gen_stack_len(s, 0, Seq::empty());
    lemma_min_depth_is_min(s);
    assert(s.take(s.len() as int) =~= s);
    if min_depth(s) < 0 {
        let k0 = choose|k: int|
            0 <= k <= s.len() && min_depth(s) == begin_count(#[trigger] s.take(k)) - end_count(
                s.take(k),
            );
        assert(end_count(s.take(k0)) > begin_count(s.take(k0)));
    }
}

/// Walk the canonical stream once and emit its statements, pairing loop
/// labels through the nesting stack. Counts are non-negative, as the fold
/// pass leaves them.
pub fn generate_body(symbols: &Vec<SymbolCount>) -> (r: Result<String, CompileError>)
    requires
        forall|k: int|
            0 <= k < symbols.deep_view().len() ==> (#[trigger] symbols.deep_view()[k]).count
                >= 0,
    ensures
        result_chars(r) == gen_output(symbols.deep_view()),
{
    let ghost s = symbols.deep_view();
    let mut out = String::new();
    let mut loop_counter: usize = 0;
    let mut loop_stack: Vec<usize> = Vec::new();
    let n = symbols.len();
    let mut i: usize = 0;
    proof {
        assert(s.skip(0) =~= s);
        assert(stack_view(loop_stack@) =~= Seq::<nat>::empty());
        gen_compose_empty_prefix(gen_runs(s, 0, Seq::empty()));
    }
    while i < n
        invariant
            i <= n,
            n == s.len(),
            s == symbols.deep_view(),
            forall|k: int| 0 <= k < s.len() ==> (#[trigger] s[k]).count >= 0,
            loop_counter <= i,
            gen_runs(s, 0, Seq::empty()) == gen_compose(
                out@,
                gen_runs(s.skip(i as int), loop_counter as nat, stack_view(loop_stack@)),
            ),
        decreases n - i,
    {
        let sym = symbols[i];
        let ghost tail = s.skip(i as int);
        let ghost out0 = out@;
        let ghost st0 = stack_view(loop_stack@);
        proof {
            assert(sym@ == s[i as int]);
            assert(tail.first() == s[i as int]);
            assert(tail.drop_first() =~= s.skip(i + 1));
        }
        match sym.symbol {
            Symbol::StartLoop => {
                out.append("loop_start_");
                let lab = dec_string(loop_counter);
                out.append(lab.as_str());
                out.append(":\ncmp byte [d + rbx], 0\nje loop_end_");
                out.append(lab.as_str());
                out.append("\n");
                loop_stack.push(loop_counter);
                proof {
                    assert(out@ =~= out0 + start_loop_lines(loop_counter as nat));
                    assert(stack_view(loop_stack@) =~= st0.push(loop_counter as nat));
                    gen_step_compose(
                        s,
                        out0,
                        start_loop_lines(loop_counter as nat),
                        gen_runs(
                            s.skip(i + 1),
                            loop_counter as nat + 1,
                            st0.push(loop_counter as nat),
                        ),
                    );
                }
                loop_counter = loop_counter + 1;
            },
            Symbol::EndLoop => {
                if loop_stack.len() == 0 {
                    proof {
                        assert(st0.len() == 0);
                        assert(gen_runs(tail, loop_counter as nat, st0) is None);
                    }
                    return Err(CompileError::UnmatchedEndLoop);
                }
                let lbl = loop_stack.pop().unwrap();
                out.append("jmp loop_start_");
                let lab = dec_string(lbl);
                out.append(lab.as_str());
                out.append("\nloop_end_");
                out.append(lab.as_str());
                out.append(":\n");
                proof {
                    assert(lbl as nat == st0.last());
                    assert(stack_view(loop_stack@) =~= st0.drop_last());
                    assert(out@ =~= out0 + end_loop_lines(st0.last()));
                    gen_step_compose(
                        s,
                        out0,
                        end_loop_lines(st0.last()),
                        gen_runs(s.skip(i + 1), loop_counter as nat, st0.drop_last()),
                    );
                }
            },
            Symbol::Right => {
                out.append("add rbx, ");
                let c = dec_string(count_of(sym));
                out.append(c.as_str());
                out.append("\n");
                proof {
                    assert(out@ =~= out0 + line_for(s[i as int]));
                    gen_step_compose(
                        s,
                        out0,
                        line_for(s[i as int]),
                        gen_runs(s.skip(i + 1), loop_counter as nat, st0),
                    );
                }
            },
            Symbol::Left => {
                out.append("sub rbx, ");
                let c = dec_string(count_of(sym));
                out.append(c.as_str());
                out.append("\n");
                proof {
                    assert(out@ =~= out0 + line_for(s[i as int]));
                    gen_step_compose(
                        s,
                        out0,
                        line_for(s[i as int]),
                        gen_runs(s.skip(i + 1), loop_counter as nat, st0),
                    );
                }
            },
            Symbol::Incr => {
                out.append("add byte [d + rbx], ");
                let c = dec_string(count_of(sym));
                out.append(c.as_str());
                out.append("\n");
                proof {
                    assert(out@ =~= out0 + line_for(s[i as int]));
                    gen_step_compose(
                        s,
                        out0,
                        line_for(s[i as int]),
                        gen_runs(s.skip(i + 1), loop_counter as nat, st0),
                    );
                }
            },
            Symbol::Decr => {
                out.append("sub byte [d + rbx], ");
                let c = dec_string(count_of(sym));
                out.append(c.as_str());
                out.append("\n");
                proof {
                    assert(out@ =~= out0 + line_for(s[i as int]));
                    gen_step_compose(
                        s,
                        out0,
                        line_for(s[i as int]),
                        gen_runs(s.skip(i + 1), loop_counter as nat, st0),
                    );
                }
            },
            Symbol::Out => {
                out.append("call print\n");
                proof {
                    assert(out@ =~= out0 + line_for(s[i as int]));
                    gen_step_compose(
                        s,
                        out0,
                        line_for(s[i as int]),
                        gen_runs(s.skip(i + 1), loop_counter as nat, st0),
                    );
                }
            },
            Symbol::In => {
                out.append("call read\n");
                proof {
                    assert(out@ =~= out0 + line_for(s[i as int]));
                    gen_step_compose(
                        s,
                        out0,
                        line_for(s[i as int]),
                        gen_runs(s.skip(i + 1), loop_counter as nat, st0),
                    );
                }
            },
        }
        i = i + 1;
    }
    proof {
        assert(s.skip(n as int) =~= Seq::<Run>::empty());
        if gen_runs(s, 0, Seq::empty()) is Some {
            let t = gen_runs(s, 0, Seq::empty()).unwrap().0;
            assert(out@ + Seq::<char>::empty() =~= out@);
            assert(t == out@);
        }
    }
    if loop_stack.len() > 0 {
        return Err(CompileError::UnmatchedBeginLoop);
    }
    Ok(out)
}

/// The count of an entry as a machine word, for rendering.
fn count_of(sym: SymbolCount) -> (r: usize)
    requires
        sym.count >= 0,
    ensures
        r as nat == sym@.count as nat,
{
    sym.count as usize
}

/// An empty prefix splices to the result unchanged.
proof fn gen_compose_empty_prefix(rest: Option<(Seq<char>, nat, Seq<nat>)>)
    ensures
        gen_compose(Seq::empty(), rest) == rest,
{
    if rest is Some {
        let t = rest.unwrap().0;
        assert(Seq::<char>::empty() + t =~= t);
    }
}

/// The marker of the template's code-insertion point.
pub open spec fn code_marker() -> Seq<char> {
    "<GENERATED_CODE_HERE>"@
}

/// The marker of the template's tape-length substitution point.
pub open spec fn tape_marker() -> Seq<char> {
    "<CALCULATED_TAPE_LENGTH>"@
}

/// What rendering owes: the template's header with its tape-length marker
/// replaced by the decimal tape length, then the generated body in place
/// of the code marker, then the footer verbatim. A template missing either
/// marker is an invalid boilerplate; a loop-pairing failure is passed on,
/// and no output is produced for it.
pub open spec fn spec_render(template: Seq<char>, tape: nat, s: Seq<Run>) -> Result<
    Seq<char>,
    CompileError,
> {
    match spec_find(template, code_marker()) {
        None => Err(CompileError::InvalidBoilerplate),
        Some(ci) => {
            let header = template.take(ci);
            let footer = template.skip(ci + code_marker().len());
            match spec_find(header, tape_marker()) {
                None => Err(CompileError::InvalidBoilerplate),
                Some(ti) => match gen_output(s) {
                    Err(e) => Err(e),
                    Ok(body) => Ok(
                        header.take(ti) + dec_chars(tape) + header.skip(ti + tape_marker().len())
                            + body + footer,
                    ),
                },
            }
        },
    }
}

/// Substitute the tape length and the generated statements into the fixed
/// boilerplate template.
pub fn render_asm(template: &str, tape_length: usize, symbols: &Vec<SymbolCount>) -> (r: Result<
    String,
    CompileError,
>)
    requires
        forall|k: int|
            0 <= k < symbols.deep_view().len() ==> (#[trigger] symbols.deep_view()[k]).count
                >= 0,
    ensures
        result_chars(r) == spec_render(template@, tape_length as nat, symbols.deep_view()),
{
    let code_mark = "<GENERATED_CODE_HERE>";
    let tape_mark = "<CALCULATED_TAPE_LENGTH>";
    proof {
        assert(code_mark@ == code_marker());
        assert(tape_mark@ == tape_marker());
    }
    let ci = match find_marker(template, code_mark) {
        None => {
            return Err(CompileError::InvalidBoilerplate);
        },
        Some(x) => x,
    };
    proof {
        lemma_find_characterization(template@, code_mark@);
    }
    let t_len = template.unicode_len();
    let cm_len = code_mark.unicode_len();
    let header = template.substring_char(0, ci);
    let footer = template.substring_char(ci + cm_len, t_len);
    proof {
        assert(header@ =~= template@.take(ci as int));
        assert(footer@ =~= template@.skip(ci + cm_len));
    }
    let ti = match find_marker(header, tape_mark) {
        None => {
            return Err(CompileError::InvalidBoilerplate);
        },
        Some(x) => x,
    };
    proof {
        lemma_find_characterization(header@, tape_mark@);
    }
    let h_len = header.unicode_len();
    let tm_len = tape_mark.unicode_len();
    let body = match generate_body(symbols) {
        Err(e) => {
            return Err(e);
        },
        Ok(b) => b,
    };
    let mut out = header.substring_char(0, ti).to_owned();
    out.append(dec_string(tape_length).as_str());
    out.append(header.substring_char(ti + tm_len, h_len));
    out.append(body.as_str());
    out.append(footer);
    proof {
        assert(header@.subrange(0, ti as int) =~= header@.take(ti as int));
        assert(header@.subrange(ti + tm_len, h_len as int) =~= header@.skip(ti + tm_len));
        assert(out@ =~= header@.take(ti as int) + dec_chars(tape_length as nat) + header@.skip(
            ti + tm_len,
        ) + body@ + footer@);
    }
    Ok(out)
}

/// Splicing composes with one generation step: emitting `piece` and
/// continuing equals continuing with the piece prepended.
proof fn gen_step_compose(
    s: Seq<Run>,
    prefix: Seq<char>,
    piece: Seq<char>,
    rest: Option<(Seq<char>, nat, Seq<nat>)>,
)
    ensures
        gen_compose(prefix + piece, rest) == gen_compose(prefix, gen_compose(piece, rest)),
{
    if rest is Some {
        let t = rest.unwrap().0;
        assert((prefix + piece) + t =~= prefix + (piece + t));
    }
}

} // verus!
