//! The pattern matcher: scans each targeted function's traced instruction
//! path for a first opcode followed, within a bounded lookahead window, by a
//! second opcode, and extracts a clamped context window around each hit.

use vstd::prelude::*;
use vstd::string::StrSliceExecFns;

verus! {

/// How many instructions past a first-opcode hit the lookahead may inspect;
/// the window for a hit at `i` is the exclusive range `i + 1 .. i + LOOKAHEAD`.
pub const LOOKAHEAD: usize = 10;

/// `needle` occurs in `hay` starting at index `k`.
pub open spec fn contains_at(hay: Seq<char>, needle: Seq<char>, k: int) -> bool {
    0 <= k && k + needle.len() <= hay.len() && hay.subrange(k, k + needle.len()) == needle
}

/// `needle` occurs somewhere in `hay` as a contiguous substring.
pub open spec fn has_substr(hay: Seq<char>, needle: Seq<char>) -> bool {
    exists|k: int| contains_at(hay, needle, k)
}

/// Whether `needle` occurs in `hay` at index `k`.
fn match_at(hay: &str, needle: &str, k: usize) -> (r: bool)
    requires
        k + needle@.len() <= hay@.len(),
    ensures
        r == contains_at(hay@, needle@, k as int),
{
    let hl = hay.unicode_len();
    let nl = needle.unicode_len();
    let mut j: usize = 0;
    while j < nl
        invariant
            hl == hay@.len(),
            nl == needle@.len(),
            k + nl <= hl,
            j <= nl,
            forall|j2: int| 0 <= j2 < j ==> hay@[k + j2] == needle@[j2],
        decreases nl - j,
    {
        if hay.get_char(k + j) != needle.get_char(j) {
            proof {
                if contains_at(hay@, needle@, k as int) {
                    assert(hay@.subrange(k as int, k as int + nl as int)[j as int] == needle@[
                        j as int
                    ]);
                }
            }
            return false;
        }
        j += 1;
    }
    proof {
        assert(hay@.subrange(k as int, k as int + nl as int) =~= needle@);
    }
    true
}

/// Whether `needle` occurs in `hay` as a contiguous substring, as the
/// heuristic opcode comparison asks (the empty needle occurs everywhere).
pub fn contains_substr(hay: &str, needle: &str) -> (r: bool)
    ensures
        r == has_substr(hay@, needle@),
{
    let hl = hay.unicode_len();
    let nl = needle.unicode_len();
    if nl > hl {
        proof {
            assert forall|k: int| !contains_at(hay@, needle@, k) by {}
        }
        return false;
    }
    if nl == 0 {
        proof {
            assert(hay@.subrange(0, 0) =~= needle@);
            assert(contains_at(hay@, needle@, 0));
        }
        return true;
    }
    let mut k: usize = 0;
    while k <= hl - nl
        invariant
            hl == hay@.len(),
            nl == needle@.len(),
            1 <= nl <= hl,
            k <= hl - nl + 1,
            forall|k2: int| 0 <= k2 < k ==> !contains_at(hay@, needle@, k2),
        decreases hl - nl + 1 - k,
    {
        if match_at(hay, needle, k) {
            return true;
        }
        k += 1;
    }
    proof {
        assert forall|k2: int| !contains_at(hay@, needle@, k2) by {
            if 0 <= k2 <= hl - nl {
                assert(!contains_at(hay@, needle@, k2));
            }
        }
    }
    false
}

/// Per discovered function: its selector bytes, the selector's canonical
/// text, the bytecode entry offset, the traced block ranges, and the traced,
/// offset-ordered instruction subsequence.
pub struct FunctionTrace {
    pub selector: Vec<u8>,
    pub selector_hex: String,
    pub entry_point: usize,
    pub blocks: Vec<(usize, usize)>,
    pub disassembled: Vec<(usize, String)>,
}

/// One located pattern occurrence: the owning function's selector text, the
/// offset of the first-opcode hit, and the surrounding context window.
pub struct PatternMatch {
    pub function_selector: String,
    pub location: usize,
    pub context: Vec<(usize, String)>,
}

/// The exclusive end of the lookahead window for a hit at `i`.
pub open spec fn window_end(len: int, i: int) -> int {
    if i + (LOOKAHEAD as int) < len {
        i + (LOOKAHEAD as int)
    } else {
        len
    }
}

/// The least index at or past `j` but inside the lookahead window of `i`
/// whose instruction text contains `second`, if any.
pub open spec fn first_hit_from(
    ins: Seq<(usize, String)>,
    second: Seq<char>,
    i: int,
    j: int,
) -> Option<int>
    decreases window_end(ins.len() as int, i) - j,
{
    if j < i + 1 || j >= window_end(ins.len() as int, i) {
        None
    } else if has_substr(ins[j].1@, second) {
        Some(j)
    } else {
        first_hit_from(ins, second, i, j + 1)
    }
}

/// The start of the context window for a hit at `i`, clamped at the first
/// instruction.
pub open spec fn context_lo(i: int, context_size: int) -> int {
    if i > context_size {
        i - context_size
    } else {
        0
    }
}

/// The inclusive end of the context window when the second opcode sits at
/// `j`, clamped at the last instruction.
pub open spec fn context_hi(j: int, context_size: int, len: int) -> int {
    if j + context_size < len - 1 {
        j + context_size
    } else {
        len - 1
    }
}

/// The mathematical content of one match: selector text, hit offset, and
/// context window.
pub open spec fn match_view(m: PatternMatch) -> (Seq<char>, usize, Seq<(usize, String)>) {
    (m.function_selector@, m.location, m.context@)
}

/// The mathematical content of a match list, in order.
pub open spec fn match_views(ms: Seq<PatternMatch>) -> Seq<
    (Seq<char>, usize, Seq<(usize, String)>),
> {
    ms.map_values(|m: PatternMatch| match_view(m))
}

/// The matches that scanning one trace's instruction sequence from position
/// `i` onward yields, in scan order: at each position holding `first`, the
/// nearest `second` in the lookahead window completes one match whose
/// context is the clamped inclusive slice around the pair.
pub open spec fn scan_from(
    sel: Seq<char>,
    ins: Seq<(usize, String)>,
    first: Seq<char>,
    second: Seq<char>,
    context_size: int,
    i: int,
) -> Seq<(Seq<char>, usize, Seq<(usize, String)>)>
    decreases ins.len() - i,
{
    if i < 0 || i >= ins.len() {
        Seq::empty()
    } else {
        let rest = scan_from(sel, ins, first, second, context_size, i + 1);
        if has_substr(ins[i].1@, first) {
            match first_hit_from(ins, second, i, i + 1) {
                Some(j) => seq![
                    (
                        sel,
                        ins[i].0,
                        ins.subrange(
                            context_lo(i, context_size),
                            context_hi(j, context_size, ins.len() as int) + 1,
                        ),
                    ),
                ] + rest,
                None => rest,
            }
        } else {
            rest
        }
    }
}

/// A selector's canonical text is among the targets.
pub open spec fn is_target(targets: Seq<String>, sel: Seq<char>) -> bool {
    exists|k: int| 0 <= k < targets.len() && #[trigger] targets[k]@ == sel
}

/// The matches of a whole search over the traces from index `t` onward:
/// only traces whose selector text is targeted contribute, each scanned
/// from its first instruction, in trace order.
pub open spec fn search_matches(
    targets: Seq<String>,
    traces: Seq<FunctionTrace>,
    first: Seq<char>,
    second: Seq<char>,
    context_size: int,
    t: int,
) -> Seq<(Seq<char>, usize, Seq<(usize, String)>)>
    decreases traces.len() - t,
{
    if t < 0 || t >= traces.len() {
        Seq::empty()
    } else {
        let here = if is_target(targets, traces[t].selector_hex@) {
            scan_from(
                traces[t].selector_hex@,
                traces[t].disassembled@,
                first,
                second,
                context_size,
                0,
            )
        } else {
            Seq::empty()
        };
        here + search_matches(targets, traces, first, second, context_size, t + 1)
    }
}

/// Whether the selector text is among the targets.
fn selector_in_targets(targets: &Vec<String>, sel: &String) -> (r: bool)
    ensures
        r == is_target(targets@, sel@),
{
    let n = targets.len();
    let mut k: usize = 0;
    while k < n
        invariant
            n == targets@.len(),
            k <= n,
            forall|k2: int| 0 <= k2 < k ==> #[trigger] targets@[k2]@ != sel@,
        decreases n - k,
    {
        if sel.eq(&targets[k]) {
            return true;
        }
        k += 1;
    }
    false
}

/// The least position in the lookahead window of `i` whose instruction text
/// contains the second opcode, if any.
fn find_second(
    ins: &Vec<(usize, String)>,
    second_opcode: &str,
    i: usize,
    wend: usize,
) -> (r: Option<usize>)
    requires
        i < ins@.len(),
        wend as int == window_end(ins@.len() as int, i as int),
    ensures
        r matches Some(j) ==> i < j < wend && first_hit_from(
            ins@,
            second_opcode@,
            i as int,
            i as int + 1,
        ) == Some(j as int),
        r is None ==> first_hit_from(ins@, second_opcode@, i as int, i as int + 1) is None,
{
    let mut j: usize = i + 1;
    while j < wend
        invariant
            i < ins@.len(),
            wend as int == window_end(ins@.len() as int, i as int),
            i + 1 <= j,
            j <= wend || j == i + 1,
            first_hit_from(ins@, second_opcode@, i as int, i as int + 1) == first_hit_from(
                ins@,
                second_opcode@,
                i as int,
                j as int,
            ),
        decreases wend - j,
    {
        let q = &ins[j];
        if contains_substr(q.1.as_str(), second_opcode) {
            proof {
                assert(first_hit_from(ins@, second_opcode@, i as int, j as int) == Some(
                    j as int,
                ));
            }
            return Some(j);
        }
        proof {
            assert(first_hit_from(ins@, second_opcode@, i as int, j as int) == first_hit_from(
                ins@,
                second_opcode@,
                i as int,
                j as int + 1,
            ));
        }
        j += 1;
    }
    proof {
        assert(first_hit_from(ins@, second_opcode@, i as int, j as int) is None);
    }
    None
}

/// The inclusive slice `ins[lo ..= hi]`.
fn context_slice(ins: &Vec<(usize, String)>, lo: usize, hi: usize) -> (r: Vec<(usize, String)>)
    requires
        lo <= hi < ins@.len(),
    ensures
        r@ == ins@.subrange(lo as int, hi + 1),
{
    let mut out: Vec<(usize, String)> = Vec::new();
    proof {
        assert(out@ =~= ins@.subrange(lo as int, lo as int));
    }
    let n = ins.len();
    let mut k: usize = lo;
    while k <= hi
        invariant
            n == ins@.len(),
            hi < n,
            lo <= k,
            k <= hi + 1,
            out@ == ins@.subrange(lo as int, k as int),
        decreases hi + 1 - k,
    {
        let p = &ins[k];
        let off = p.0;
        let txt = p.1.clone();
        proof {
            assert((off, txt) == ins@[k as int]);
        }
        out.push((off, txt));
        proof {
            assert(out@ =~= ins@.subrange(lo as int, k as int + 1));
        }
        k += 1;
    }
    out
}

/// Appends to `out` the matches found in one targeted trace, scanning its
/// instruction sequence left to right.
fn scan_trace_into(
    out: &mut Vec<PatternMatch>,
    trace: &FunctionTrace,
    first_opcode: &str,
    second_opcode: &str,
    context_size: usize,
)
    ensures
        match_views(final(out)@) == match_views(old(out)@) + scan_from(
            trace.selector_hex@,
            trace.disassembled@,
            first_opcode@,
            second_opcode@,
            context_size as int,
            0,
        ),
{
    let ghost sel = trace.selector_hex@;
    let ghost ins = trace.disassembled@;
    let ghost f = first_opcode@;
    let ghost s = second_opcode@;
    let ghost cs = context_size as int;
    let len = trace.disassembled.len();
    let mut i: usize = 0;
    while i < len
        invariant
            sel == trace.selector_hex@,
            ins == trace.disassembled@,
            f == first_opcode@,
            s == second_opcode@,
            cs == context_size as int,
            len == ins.len(),
            i <= len,
            match_views(out@) + scan_from(sel, ins, f, s, cs, i as int) == match_views(
                old(out)@,
            ) + scan_from(sel, ins, f, s, cs, 0),
        decreases len - i,
    {
        let p = &trace.disassembled[i];
        let ghost pre = out@;
        if contains_substr(p.1.as_str(), first_opcode) {
            let wend = if len - i > LOOKAHEAD {
                i + LOOKAHEAD
            } else {
                len
            };
            proof {
                assert(wend as int == window_end(len as int, i as int));
            }
            let hit = find_second(&trace.disassembled, second_opcode, i, wend);
            match hit {
                Some(j) => {
                    let lo = if i > context_size {
                        i - context_size
                    } else {
                        0
                    };
                    let hi = if len - 1 - j < context_size {
                        len - 1
                    } else {
                        j + context_size
                    };
                    proof {
                        assert(lo as int == context_lo(i as int, cs));
                        assert(hi as int == context_hi(j as int, cs, len as int));
                        assert(lo <= hi < len);
                    }
                    let ctx = context_slice(&trace.disassembled, lo, hi);
                    let m = PatternMatch {
                        function_selector: trace.selector_hex.clone(),
                        location: trace.disassembled[i].0,
                        context: ctx,
                    };
                    out.push(m);
                    proof {
                        let mv = (
                            sel,
                            ins[i as int].0,
                            ins.subrange(
                                context_lo(i as int, cs),
                                context_hi(j as int, cs, len as int) + 1,
                            ),
                        );
                        assert(match_view(m) == mv);
                        assert(match_views(out@) =~= match_views(pre).push(mv));
                        assert(scan_from(sel, ins, f, s, cs, i as int) == seq![mv] + scan_from(
                            sel,
                            ins,
                            f,
                            s,
                            cs,
                            i as int + 1,
                        ));
                        assert(match_views(pre) + (seq![mv] + scan_from(sel, ins, f, s, cs, i as int + 1))
                            =~= match_views(out@) + scan_from(sel, ins, f, s, cs, i as int + 1));
                    }
                },
                None => {
                    proof {
                        assert(scan_from(sel, ins, f, s, cs, i as int) == scan_from(
                            sel,
                            ins,
                            f,
                            s,
                            cs,
                            i as int + 1,
                        ));
                    }
                },
            }
        } else {
            proof {
                assert(scan_from(sel, ins, f, s, cs, i as int) == scan_from(
                    sel,
                    ins,
                    f,
                    s,
                    cs,
                    i as int + 1,
                ));
            }
        }
        i += 1;
    }
    proof {
        assert(scan_from(sel, ins, f, s, cs, len as int) =~= Seq::empty());
        assert(match_views(out@) + Seq::empty() =~= match_views(out@));
    }
}

/// Scans each targeted function's traced instructions for `first_opcode`
/// followed within the lookahead window by `second_opcode`, and returns one
/// match per located occurrence, carrying the owning selector text, the hit
/// instruction's offset, and the clamped context window; traces whose
/// selector text is not targeted contribute nothing. `pattern_name` is
/// descriptive metadata only and does not affect matching.
#[allow(unused_variables)]
pub fn search_pattern_in_functions(
    target_selectors: &Vec<String>,
    function_traces: &Vec<FunctionTrace>,
    first_opcode: &str,
    second_opcode: &str,
    context_size: usize,
    pattern_name: &str,
) -> (matches: Vec<PatternMatch>)
    ensures
        match_views(matches@) == search_matches(
            target_selectors@,
            function_traces@,
            first_opcode@,
            second_opcode@,
            context_size as int,
            0,
        ),
{
    let ghost targets = target_selectors@;
    let ghost traces = function_traces@;
    let ghost f = first_opcode@;
    let ghost s = second_opcode@;
    let ghost cs = context_size as int;
    let mut out: Vec<PatternMatch> = Vec::new();
    let nt = function_traces.len();
    let mut t: usize = 0;
    while t < nt
        invariant
            targets == target_selectors@,
            traces == function_traces@,
            f == first_opcode@,
            s == second_opcode@,
            cs == context_size as int,
            nt == traces.len(),
            t <= nt,
            match_views(out@) + search_matches(targets, traces, f, s, cs, t as int)
                == search_matches(targets, traces, f, s, cs, 0),
        decreases nt - t,
    {
        let trace = &function_traces[t];
        let ghost pre = out@;
        let targeted = selector_in_targets(target_selectors, &trace.selector_hex);
        if targeted {
            scan_trace_into(&mut out, trace, first_opcode, second_opcode, context_size);
        }
        proof {
            let here = if is_target(targets, traces[t as int].selector_hex@) {
                scan_from(traces[t as int].selector_hex@, traces[t as int].disassembled@, f, s, cs, 0)
            } else {
                Seq::empty()
            };
            assert(search_matches(targets, traces, f, s, cs, t as int) == here + search_matches(
                targets,
                traces,
                f,
                s,
                cs,
                t as int + 1,
            ));
            if targeted {
                assert(match_views(out@) =~= match_views(pre) + here);
            } else {
                assert(match_views(out@) + here =~= match_views(out@));
            }
            assert(match_views(pre) + (here + search_matches(targets, traces, f, s, cs, t as int + 1))
                =~= match_views(out@) + search_matches(targets, traces, f, s, cs, t as int + 1));
        }
        t += 1;
    }
    proof {
        assert(search_matches(targets, traces, f, s, cs, nt as int) =~= Seq::empty());
        assert(match_views(out@) + Seq::empty() =~= match_views(out@));
    }
    out
}

/// The lookahead bound as a law: scanning from `j0` finds a second-opcode
/// position exactly when the window `[j0, window_end)` holds one, and the
/// position found is the least such; nothing at or past `window_end` — ten
/// instructions after the hit — is ever paired.
pub proof fn lemma_lookahead_bound(
    ins: Seq<(usize, String)>,
    second: Seq<char>,
    i: int,
    j0: int,
)
    requires
        i + 1 <= j0,
    ensures
        (first_hit_from(ins, second, i, j0) is Some) <==> exists|j: int|
            j0 <= j < window_end(ins.len() as int, i) && has_substr(#[trigger] ins[j].1@, second),
        first_hit_from(ins, second, i, j0) matches Some(j) ==> j0 <= j < window_end(
            ins.len() as int,
            i,
        ) && has_substr(ins[j].1@, second) && forall|j2: int|
            j0 <= j2 < j ==> !has_substr(#[trigger] ins[j2].1@, second),
    decreases window_end(ins.len() as int, i) - j0,
{
    if j0 >= window_end(ins.len() as int, i) {
    } else if has_substr(ins[j0].1@, second) {
    } else {
        lemma_lookahead_bound(ins, second, i, j0 + 1);
    }
}

/// A position whose instruction lacks the first opcode, or whose lookahead
/// window lacks the second, contributes no match to the scan.
pub proof fn lemma_no_hit_no_match(
    sel: Seq<char>,
    ins: Seq<(usize, String)>,
    first: Seq<char>,
    second: Seq<char>,
    context_size: int,
    i: int,
)
    requires
        0 <= i < ins.len(),
        !has_substr(ins[i].1@, first) || first_hit_from(ins, second, i, i + 1) is None,
    ensures
        scan_from(sel, ins, first, second, context_size, i) == scan_from(
            sel,
            ins,
            first,
            second,
            context_size,
            i + 1,
        ),
{
}

/// The context window of any emitted match is clamped to the instruction
/// bounds: it reaches `context_size` instructions before the hit or stops at
/// the first instruction, and `context_size` instructions past the second
/// opcode or stops at the last.
pub proof fn lemma_context_clamping(i: int, j: int, context_size: int, len: int)
    requires
        0 <= i <= j < len,
        0 <= context_size,
    ensures
        0 <= context_lo(i, context_size) <= i,
        i <= context_size ==> context_lo(i, context_size) == 0,
        context_size < i ==> context_lo(i, context_size) == i - context_size,
        j <= context_hi(j, context_size, len) <= len - 1,
        j + context_size <= len - 1 ==> context_hi(j, context_size, len) == j + context_size,
        len - 1 < j + context_size ==> context_hi(j, context_size, len) == len - 1,
{
}

} // verus!
