//! The assembler: lexes raw program text into instruction tokens, collapses
//! maximal runs of identical collapsible tokens into single counted
//! instructions, and resolves every bracket to its partner in one linear
//! scan over the assembled list, failing on unbalanced brackets.

use vstd::prelude::*;

use crate::tokens::ASTEntry;
use crate::tokens::AssembleError;
use crate::tokens::Tokens;
use crate::tokens::collapsible;
use crate::tokens::entry_wf;
use crate::tokens::insts_wf;
use crate::tokens::token_of_char;
use crate::tokens::tokens_of;
use vstd::string::StrSliceExecFns;

verus! {

/// The token stream of a program text: one token per instruction character,
/// in order; every other character is dropped as a comment.
pub open spec fn lex_spec(s: Seq<char>) -> Seq<Tokens>
    decreases s.len(),
{
    if s.len() == 0 {
        Seq::empty()
    } else {
        lex_spec(s.drop_last()) + match token_of_char(s.last()) {
            Some(t) => seq![t],
            None => Seq::empty(),
        }
    }
}

/// The first position at or after `i` whose token differs from `t` (or the
/// end of the stream): the exclusive end of the run of `t` starting at `i`.
pub open spec fn run_end(ts: Seq<Tokens>, t: Tokens, i: int) -> int
    decreases ts.len() - i,
{
    if i < 0 || i >= ts.len() {
        ts.len() as int
    } else if ts[i] == t {
        run_end(ts, t, i + 1)
    } else {
        i
    }
}

/// How many tokens the collapser consumes at position `i`: the whole run
/// for a collapsible token, exactly one token otherwise.
pub open spec fn run_of(ts: Seq<Tokens>, i: int) -> int {
    if collapsible(ts[i]) {
        run_end(ts, ts[i], i) - i
    } else {
        1
    }
}

proof fn lemma_run_end_bounds(ts: Seq<Tokens>, t: Tokens, i: int)
    requires
        0 <= i <= ts.len(),
    ensures
        i <= run_end(ts, t, i) <= ts.len(),
    decreases ts.len() - i,
{
    if i < ts.len() && ts[i] == t {
        lemma_run_end_bounds(ts, t, i + 1);
    }
}

/// The assembled entry list from position `i` on: the head run becomes one
/// entry carrying its length as repeat count, and assembly continues past
/// the run.
pub open spec fn collapse_from(ts: Seq<Tokens>, i: int) -> Seq<ASTEntry>
    decreases ts.len() - i when 0 <= i <= ts.len() via collapse_from_decreases
{
    if i < 0 || i >= ts.len() {
        Seq::empty()
    } else {
        let k = run_of(ts, i);
        seq![ASTEntry { token: ts[i], repeat: #[verifier::truncate] (k as usize), matching_bracket: None }]
            + collapse_from(ts, i + k)
    }
}

#[via_fn]
proof fn collapse_from_decreases(ts: Seq<Tokens>, i: int) {
    if 0 <= i < ts.len() && collapsible(ts[i]) {
        assert(run_end(ts, ts[i], i) == run_end(ts, ts[i], i + 1));
        lemma_run_end_bounds(ts, ts[i], i + 1);
    }
}

/// The run-length-collapsed form of a token stream.
pub open spec fn collapse(ts: Seq<Tokens>) -> Seq<ASTEntry> {
    collapse_from(ts, 0)
}

/// Lexes raw program text into instruction tokens; every character that is
/// not an instruction acts as a comment and is dropped.
pub fn lex(program: String) -> (r: Vec<Tokens>)
    ensures
        r@ == lex_spec(program@),
{
    let s: &str = program.as_str();
    let n: usize = s.unicode_len();
    let mut lexed: Vec<Tokens> = Vec::new();
    let mut i: usize = 0;
    while i < n
        invariant
            i <= n,
            n == s@.len(),
            s@ == program@,
            lexed@ == lex_spec(s@.take(i as int)),
        decreases n - i,
    {
        let c = s.get_char(i);
        proof {
            assert(s@.take(i + 1).drop_last() =~= s@.take(i as int));
            assert(s@.take(i + 1).last() == s@[i as int]);
        }
        match c {
            '+' => lexed.push(Tokens::Increment),
            '-' => lexed.push(Tokens::Decrement),
            '<' => lexed.push(Tokens::ShiftLeft),
            '>' => lexed.push(Tokens::ShiftRight),
            '.' => lexed.push(Tokens::Print),
            ',' => lexed.push(Tokens::TakeInput),
            '[' => lexed.push(Tokens::StartLoop),
            ']' => lexed.push(Tokens::EndLoop),
            _ => (),
        }
        i = i + 1;
    }
    proof {
        assert(s@.take(n as int) =~= s@);
    }
    lexed
}

/// Collapses every maximal run of identical collapsible tokens into a
/// single entry whose repeat count is the run length; all other tokens
/// become entries with repeat count 1. No bracket targets are set yet.
pub fn collapse_runs(lexed: &Vec<Tokens>) -> (r: Vec<ASTEntry>)
    ensures
        r@ == collapse(lexed@),
{
    let n: usize = lexed.len();
    let mut out: Vec<ASTEntry> = Vec::new();
    let mut i: usize = 0;
    while i < n
        invariant
            i <= n,
            n == lexed@.len(),
            out@ + collapse_from(lexed@, i as int) == collapse(lexed@),
        decreases n - i,
    {
        let t = lexed[i];
        let mut j: usize = i + 1;
        if crate::tokens::collapsible_token(t) {
            while j < n && lexed[j] == t
                invariant
                    i < j <= n,
                    n == lexed@.len(),
                    t == lexed@[i as int],
                    run_end(lexed@, t, j as int) == run_end(lexed@, t, i as int),
                decreases n - j,
            {
                j = j + 1;
            }
            proof {
                assert(run_end(lexed@, t, j as int) == j);
            }
        }
        let k: usize = j - i;
        let entry = ASTEntry { token: t, repeat: k, matching_bracket: None };
        let ghost prev = out@;
        out.push(entry);
        proof {
            assert(run_of(lexed@, i as int) == k);
            assert(collapse_from(lexed@, i as int) == seq![entry] + collapse_from(
                lexed@,
                j as int,
            ));
            assert(prev.push(entry) + collapse_from(lexed@, j as int) =~= prev + collapse_from(
                lexed@,
                i as int,
            ));
        }
        i = j;
    }
    out
}

/// Classic bracket-stack resolution, one entry at a time: `acc` holds the
/// entries processed so far (brackets re-pointed as their partners are
/// found) and `stack` the positions of the still-open `StartLoop` entries.
/// `None` means the brackets do not nest correctly.
pub open spec fn resolve_from(
    ents: Seq<ASTEntry>,
    i: int,
    acc: Seq<ASTEntry>,
    stack: Seq<usize>,
) -> Option<Seq<ASTEntry>>
    decreases ents.len() - i,
{
    if i < 0 || i >= ents.len() {
        if stack.len() == 0 {
            Some(acc)
        } else {
            None
        }
    } else {
        let e = ents[i];
        if e.token == Tokens::StartLoop {
            resolve_from(ents, i + 1, acc.push(e), stack.push(acc.len() as usize))
        } else if e.token == Tokens::EndLoop {
            if stack.len() == 0 {
                None
            } else {
                let j = stack.last();
                let opened = acc[j as int];
                resolve_from(
                    ents,
                    i + 1,
                    acc.update(
                        j as int,
                        ASTEntry {
                            token: opened.token,
                            repeat: opened.repeat,
                            matching_bracket: Some(acc.len() as usize),
                        },
                    ).push(
                        ASTEntry {
                            token: e.token,
                            repeat: e.repeat,
                            matching_bracket: Some(j),
                        },
                    ),
                    stack.drop_last(),
                )
            }
        } else {
            resolve_from(ents, i + 1, acc.push(e), stack)
        }
    }
}

/// Bracket resolution over a whole entry list.
pub open spec fn spec_resolve(ents: Seq<ASTEntry>) -> Option<Seq<ASTEntry>> {
    resolve_from(ents, 0, Seq::empty(), Seq::empty())
}

/// The whole assembly pipeline on a token stream: collapse runs, then
/// resolve brackets; `None` exactly on unbalanced brackets.
pub open spec fn spec_assemble(ts: Seq<Tokens>) -> Option<Seq<ASTEntry>> {
    spec_resolve(collapse(ts))
}

/// Bracket nesting checked by depth, scanning from position `i` at nesting
/// depth `d`: every `EndLoop` must find a positive depth, and the depth
/// must return to zero at the end.
pub open spec fn depth_ok(ts: Seq<Tokens>, i: int, d: int) -> bool
    decreases ts.len() - i,
{
    if i < 0 || i >= ts.len() {
        d == 0
    } else if ts[i] == Tokens::StartLoop {
        depth_ok(ts, i + 1, d + 1)
    } else if ts[i] == Tokens::EndLoop {
        d > 0 && depth_ok(ts, i + 1, d - 1)
    } else {
        depth_ok(ts, i + 1, d)
    }
}

/// A token stream whose brackets nest correctly.
pub open spec fn balanced(ts: Seq<Tokens>) -> bool {
    depth_ok(ts, 0, 0)
}

/// Resolves each bracket entry to its partner in one linear scan with a
/// stack of pending open positions, failing if the brackets do not nest
/// correctly. All other entries pass through unchanged.
pub fn resolve_brackets(entries: Vec<ASTEntry>) -> (r: Result<Vec<ASTEntry>, AssembleError>)
    ensures
        r matches Ok(res) ==> Some(res@) == spec_resolve(entries@),
        r is Err <==> spec_resolve(entries@) is None,
        r matches Err(e) ==> e == AssembleError::UnbalancedBrackets,
{
    let n: usize = entries.len();
    let mut out = entries;
    let ghost ents = out@;
    let mut stack: Vec<usize> = Vec::new();
    let mut i: usize = 0;
    proof {
        assert(out@.take(0) =~= Seq::<ASTEntry>::empty());
        assert(stack@ =~= Seq::<usize>::empty());
    }
    while i < n
        invariant
            i <= n,
            n == out@.len(),
            ents == entries@,
            ents.len() == n,
            forall|m: int| i <= m < n ==> out@[m] == ents[m],
            spec_resolve(ents) == resolve_from(ents, i as int, out@.take(i as int), stack@),
            forall|q: int| 0 <= q < stack@.len() ==> stack@[q] < i,
        decreases n - i,
    {
        let e = out[i];
        if e.token == Tokens::StartLoop {
            stack.push(i);
            proof {
                assert(out@.take(i + 1) =~= out@.take(i as int).push(e));
            }
        } else if e.token == Tokens::EndLoop {
            let popped = stack.pop();
            match popped {
                None => {
                    proof {
                        assert(ents[i as int].token == Tokens::EndLoop);
                        assert(resolve_from(ents, i as int, out@.take(i as int), stack@) is None);
                    }
                    return Err(AssembleError::UnbalancedBrackets);
                },
                Some(j) => {
                    let ghost prev = out@;
                    let opened = out[j];
                    out[j] = ASTEntry {
                        token: opened.token,
                        repeat: opened.repeat,
                        matching_bracket: Some(i),
                    };
                    out[i] = ASTEntry {
                        token: e.token,
                        repeat: e.repeat,
                        matching_bracket: Some(j),
                    };
                    proof {
                        assert(out@.take(i + 1) =~= prev.take(i as int).update(
                            j as int,
                            out@[j as int],
                        ).push(out@[i as int]));
                    }
                },
            }
        } else {
            proof {
                assert(out@.take(i + 1) =~= out@.take(i as int).push(e));
            }
        }
        i = i + 1;
    }
    if stack.len() != 0 {
        return Err(AssembleError::UnbalancedBrackets);
    }
    proof {
        assert(out@.take(n as int) =~= out@);
    }
    Ok(out)
}

proof fn lemma_run_end_all_eq(ts: Seq<Tokens>, t: Tokens, i: int)
    requires
        0 <= i <= ts.len(),
    ensures
        forall|m: int| i <= m < run_end(ts, t, i) ==> ts[m] == t,
    decreases ts.len() - i,
{
    if i < ts.len() && ts[i] == t {
        lemma_run_end_all_eq(ts, t, i + 1);
    }
}

proof fn lemma_run_end_uniform(ts: Seq<Tokens>, t: Tokens, i: int)
    requires
        0 <= i <= ts.len(),
        forall|m: int| i <= m < ts.len() ==> ts[m] == t,
    ensures
        run_end(ts, t, i) == ts.len(),
    decreases ts.len() - i,
{
    if i < ts.len() {
        lemma_run_end_uniform(ts, t, i + 1);
    }
}

proof fn lemma_tokens_of_concat(a: Seq<ASTEntry>, b: Seq<ASTEntry>)
    ensures
        tokens_of(a + b) =~= tokens_of(a) + tokens_of(b),
{
}

proof fn lemma_depth_ok_shift(pre: Seq<Tokens>, rest: Seq<Tokens>, j: int, d: int)
    requires
        0 <= j <= rest.len(),
    ensures
        depth_ok(pre + rest, pre.len() + j, d) == depth_ok(rest, j, d),
    decreases rest.len() - j,
{
    if j >= rest.len() {
        assert((pre + rest).len() == pre.len() + rest.len());
    } else {
        assert((pre + rest)[pre.len() + j] == rest[j]);
        if rest[j] == Tokens::StartLoop {
            lemma_depth_ok_shift(pre, rest, j + 1, d + 1);
        } else if rest[j] == Tokens::EndLoop {
            lemma_depth_ok_shift(pre, rest, j + 1, d - 1);
        } else {
            lemma_depth_ok_shift(pre, rest, j + 1, d);
        }
    }
}

proof fn lemma_depth_ok_skip_plain(ts: Seq<Tokens>, i: int, j: int, d: int)
    requires
        0 <= i <= j <= ts.len(),
        forall|m: int| i <= m < j ==> ts[m] != Tokens::StartLoop && ts[m] != Tokens::EndLoop,
    ensures
        depth_ok(ts, i, d) == depth_ok(ts, j, d),
    decreases j - i,
{
    if i < j {
        lemma_depth_ok_skip_plain(ts, i + 1, j, d);
    }
}

/// Collapsing preserves bracket nesting: brackets are never merged, and
/// merged runs contain no brackets.
proof fn lemma_collapse_depth(ts: Seq<Tokens>, i: int, d: int)
    requires
        0 <= i <= ts.len(),
    ensures
        depth_ok(tokens_of(collapse_from(ts, i)), 0, d) == depth_ok(ts, i, d),
    decreases ts.len() - i,
{
    if i >= ts.len() {
        assert(tokens_of(collapse_from(ts, i)).len() == 0);
    } else {
        let k = run_of(ts, i);
        if collapsible(ts[i]) {
            assert(run_end(ts, ts[i], i) == run_end(ts, ts[i], i + 1));
            lemma_run_end_bounds(ts, ts[i], i + 1);
            lemma_run_end_all_eq(ts, ts[i], i);
        }
        let head = seq![
            ASTEntry {
                token: ts[i],
                repeat: #[verifier::truncate] (k as usize),
                matching_bracket: None,
            },
        ];
        let rest = collapse_from(ts, i + k);
        assert(collapse_from(ts, i) == head + rest);
        lemma_tokens_of_concat(head, rest);
        assert(tokens_of(head) =~= seq![ts[i]]);
        let s = tokens_of(collapse_from(ts, i));
        assert(s == tokens_of(head) + tokens_of(rest));
        assert(s[0] == ts[i]);
        if ts[i] == Tokens::StartLoop {
            lemma_collapse_depth(ts, i + 1, d + 1);
            lemma_depth_ok_shift(tokens_of(head), tokens_of(rest), 0, d + 1);
        } else if ts[i] == Tokens::EndLoop {
            lemma_collapse_depth(ts, i + 1, d - 1);
            lemma_depth_ok_shift(tokens_of(head), tokens_of(rest), 0, d - 1);
        } else {
            lemma_collapse_depth(ts, i + k, d);
            lemma_depth_ok_shift(tokens_of(head), tokens_of(rest), 0, d);
            lemma_depth_ok_skip_plain(ts, i, i + k, d);
        }
    }
}

/// Bracket-stack resolution succeeds exactly when the bracket depth scan
/// does, the stack height playing the role of the current depth.
proof fn lemma_resolve_iff_depth(ents: Seq<ASTEntry>, i: int, acc: Seq<ASTEntry>, stack: Seq<usize>)
    requires
        0 <= i <= ents.len(),
    ensures
        resolve_from(ents, i, acc, stack) is Some <==> depth_ok(
            tokens_of(ents),
            i,
            stack.len() as int,
        ),
    decreases ents.len() - i,
{
    assert(tokens_of(ents).len() == ents.len());
    if i < ents.len() {
        assert(tokens_of(ents)[i] == ents[i].token);
        let e = ents[i];
        if e.token == Tokens::StartLoop {
            lemma_resolve_iff_depth(ents, i + 1, acc.push(e), stack.push(acc.len() as usize));
        } else if e.token == Tokens::EndLoop {
            if stack.len() > 0 {
                let j = stack.last();
                let opened = acc[j as int];
                let acc2 = acc.update(
                    j as int,
                    ASTEntry {
                        token: opened.token,
                        repeat: opened.repeat,
                        matching_bracket: Some(acc.len() as usize),
                    },
                ).push(ASTEntry { token: e.token, repeat: e.repeat, matching_bracket: Some(j) });
                lemma_resolve_iff_depth(ents, i + 1, acc2, stack.drop_last());
            }
        } else {
            lemma_resolve_iff_depth(ents, i + 1, acc.push(e), stack);
        }
    }
}

/// Whether some pending-open position equals `p`.
spec fn in_stack(stack: Seq<usize>, p: int) -> bool {
    exists|q: int| 0 <= q < stack.len() && stack[q] == p
}

/// Entries already fully resolved are locked into their final, mutually
/// pointing shape.
spec fn closed_wf(acc: Seq<ASTEntry>, p: int) -> bool {
    let e = acc[p];
    &&& e.token == Tokens::StartLoop ==> {
        let j = e.matching_bracket->0;
        &&& e.matching_bracket is Some
        &&& p < j < acc.len()
        &&& acc[j as int].token == Tokens::EndLoop
        &&& acc[j as int].matching_bracket == Some(p as usize)
    }
    &&& e.token == Tokens::EndLoop ==> {
        let j = e.matching_bracket->0;
        &&& e.matching_bracket is Some
        &&& j < p
        &&& acc[j as int].token == Tokens::StartLoop
        &&& acc[j as int].matching_bracket == Some(p as usize)
    }
    &&& e.token != Tokens::StartLoop && e.token != Tokens::EndLoop ==> e.matching_bracket is None
}

/// The inductive shape of the resolution state: one entry per processed
/// position, stack positions strictly increasing and still unresolved,
/// everything else resolved for good.
spec fn resolve_inv(ents: Seq<ASTEntry>, i: int, acc: Seq<ASTEntry>, stack: Seq<usize>) -> bool {
    &&& 0 <= i <= ents.len()
    &&& acc.len() == i
    &&& forall|p: int|
        0 <= p < i ==> (#[trigger] acc[p]).token == ents[p].token && acc[p].repeat
            == ents[p].repeat
    &&& forall|q1: int, q2: int| 0 <= q1 < q2 < stack.len() ==> stack[q1] < stack[q2]
    &&& forall|q: int|
        0 <= q < stack.len() ==> #[trigger] stack[q] < i && acc[stack[q] as int].token
            == Tokens::StartLoop && acc[stack[q] as int].matching_bracket is None
    &&& forall|p: int| 0 <= p < i && !in_stack(stack, p) ==> #[trigger] closed_wf(acc, p)
}

/// When resolution succeeds from a well-shaped state, the result is a
/// well-formed instruction list that keeps every token and repeat count.
proof fn lemma_resolve_wf(ents: Seq<ASTEntry>, i: int, acc: Seq<ASTEntry>, stack: Seq<usize>)
    requires
        ents.len() <= usize::MAX,
        resolve_inv(ents, i, acc, stack),
        forall|p: int|
            0 <= p < ents.len() ==> 1 <= (#[trigger] ents[p]).repeat && (!collapsible(
                ents[p].token,
            ) ==> ents[p].repeat == 1) && ents[p].matching_bracket is None,
    ensures
        resolve_from(ents, i, acc, stack) matches Some(res) ==> res.len() == ents.len()
            && insts_wf(res) && (forall|p: int|
            0 <= p < res.len() ==> (#[trigger] res[p]).token == ents[p].token && res[p].repeat
                == ents[p].repeat),
    decreases ents.len() - i,
{
    if i >= ents.len() {
        if stack.len() == 0 {
            assert forall|p: int| 0 <= p < acc.len() implies entry_wf(acc, p) by {
                assert(!in_stack(stack, p));
                assert(closed_wf(acc, p));
            }
        }
    } else {
        let e = ents[i];
        if e.token == Tokens::StartLoop {
            let acc2 = acc.push(e);
            let stack2 = stack.push(acc.len() as usize);
            assert forall|p: int| 0 <= p < i + 1 && !in_stack(stack2, p) implies #[trigger]
            closed_wf(acc2, p) by {
                assert(!in_stack(stack, p)) by {
                    if in_stack(stack, p) {
                        let q = choose|q: int| 0 <= q < stack.len() && stack[q] == p;
                        assert(stack2[q] == p);
                    }
                }
                assert(p != i) by {
                    assert(stack2[stack.len() as int] == i);
                }
                assert(closed_wf(acc, p));
            }
            assert(resolve_inv(ents, i + 1, acc2, stack2));
            lemma_resolve_wf(ents, i + 1, acc2, stack2);
        } else if e.token == Tokens::EndLoop {
            if stack.len() > 0 {
                let j = stack.last();
                let opened = acc[j as int];
                let acc2 = acc.update(
                    j as int,
                    ASTEntry {
                        token: opened.token,
                        repeat: opened.repeat,
                        matching_bracket: Some(acc.len() as usize),
                    },
                ).push(ASTEntry { token: e.token, repeat: e.repeat, matching_bracket: Some(j) });
                let stack2 = stack.drop_last();
                assert(stack[stack.len() - 1] == j);
                assert forall|p: int| 0 <= p < i + 1 && !in_stack(stack2, p) implies #[trigger]
                closed_wf(acc2, p) by {
                    if p == i {
                        assert(acc2[j as int].token == Tokens::StartLoop);
                        assert(closed_wf(acc2, p));
                    } else if p == j {
                        assert(closed_wf(acc2, p));
                    } else {
                        assert(!in_stack(stack, p)) by {
                            if in_stack(stack, p) {
                                let q = choose|q: int| 0 <= q < stack.len() && stack[q] == p;
                                assert(q < stack.len() - 1);
                                assert(stack2[q] == p);
                            }
                        }
                        assert(closed_wf(acc, p));
                        assert(acc[p].token == acc2[p].token);
                        if acc[p].token == Tokens::StartLoop {
                            let pj = acc[p].matching_bracket->0;
                            assert(acc[pj as int].token == Tokens::EndLoop);
                            assert(pj != j);
                            assert(closed_wf(acc2, p));
                        } else if acc[p].token == Tokens::EndLoop {
                            let pj = acc[p].matching_bracket->0;
                            assert(acc[pj as int].matching_bracket == Some(p as usize));
                            assert(pj != j);
                            assert(closed_wf(acc2, p));
                        } else {
                            assert(closed_wf(acc2, p));
                        }
                    }
                }
                assert forall|q: int| 0 <= q < stack2.len() implies #[trigger] stack2[q] < i + 1
                    && acc2[stack2[q] as int].token == Tokens::StartLoop
                    && acc2[stack2[q] as int].matching_bracket is None by {
                    assert(stack2[q] == stack[q]);
                    assert(stack[q] < stack[stack.len() - 1]);
                }
                assert(resolve_inv(ents, i + 1, acc2, stack2));
                lemma_resolve_wf(ents, i + 1, acc2, stack2);
            }
        } else {
            let acc2 = acc.push(e);
            assert forall|p: int| 0 <= p < i + 1 && !in_stack(stack, p) implies #[trigger]
            closed_wf(acc2, p) by {
                if p == i {
                    assert(closed_wf(acc2, p));
                } else {
                    assert(closed_wf(acc, p));
                }
            }
            assert forall|q: int| 0 <= q < stack.len() implies #[trigger] stack[q] < i + 1
                && acc2[stack[q] as int].token == Tokens::StartLoop
                && acc2[stack[q] as int].matching_bracket is None by {
                assert(stack[q] < i);
            }
            assert(resolve_inv(ents, i + 1, acc2, stack));
            lemma_resolve_wf(ents, i + 1, acc2, stack);
        }
    }
}

/// Every entry the collapser emits has a positive repeat count, count 1
/// unless collapsible, and no bracket target yet.
proof fn lemma_collapse_shape(ts: Seq<Tokens>, i: int)
    requires
        0 <= i <= ts.len(),
        ts.len() <= usize::MAX,
    ensures
        forall|p: int|
            0 <= p < collapse_from(ts, i).len() ==> 1 <= (#[trigger] collapse_from(ts, i)[p]).repeat
                && (!collapsible(collapse_from(ts, i)[p].token) ==> collapse_from(ts, i)[p].repeat
                == 1) && collapse_from(ts, i)[p].matching_bracket is None,
    decreases ts.len() - i,
{
    if i < ts.len() {
        let k = run_of(ts, i);
        if collapsible(ts[i]) {
            assert(run_end(ts, ts[i], i) == run_end(ts, ts[i], i + 1));
            lemma_run_end_bounds(ts, ts[i], i + 1);
        }
        lemma_collapse_shape(ts, i + k);
        let head = seq![
            ASTEntry {
                token: ts[i],
                repeat: #[verifier::truncate] (k as usize),
                matching_bracket: None,
            },
        ];
        let rest = collapse_from(ts, i + k);
        assert(collapse_from(ts, i) == head + rest);
        assert forall|p: int| 0 <= p < collapse_from(ts, i).len() implies 1 <= (
        #[trigger] collapse_from(ts, i)[p]).repeat && (!collapsible(collapse_from(ts, i)[p].token)
            ==> collapse_from(ts, i)[p].repeat == 1) && collapse_from(
            ts,
            i,
        )[p].matching_bracket is None by {
            if p == 0 {
                assert(collapse_from(ts, i)[p] == head[0]);
            } else {
                assert(collapse_from(ts, i)[p] == rest[p - 1]);
            }
        }
    }
}

proof fn lemma_collapse_len(ts: Seq<Tokens>, i: int)
    requires
        0 <= i <= ts.len(),
    ensures
        collapse_from(ts, i).len() <= ts.len() - i,
    decreases ts.len() - i,
{
    if i < ts.len() {
        let k = run_of(ts, i);
        if collapsible(ts[i]) {
            assert(run_end(ts, ts[i], i) == run_end(ts, ts[i], i + 1));
            lemma_run_end_bounds(ts, ts[i], i + 1);
        }
        lemma_collapse_len(ts, i + k);
    }
}

/// The pipeline-level facts the executable assembler hands out: success is
/// exactly bracket balance, and a successful result is well formed.
proof fn lemma_assemble_props(ts: Seq<Tokens>)
    requires
        ts.len() <= usize::MAX,
    ensures
        spec_assemble(ts) is Some <==> balanced(ts),
        spec_assemble(ts) matches Some(insts) ==> insts_wf(insts),
{
    lemma_collapse_depth(ts, 0, 0);
    lemma_resolve_iff_depth(collapse(ts), 0, Seq::empty(), Seq::empty());
    lemma_collapse_shape(ts, 0);
    lemma_collapse_len(ts, 0);
    lemma_resolve_wf(collapse(ts), 0, Seq::empty(), Seq::empty());
}

/// Assembles a lexed token stream: collapses runs of identical collapsible
/// tokens into counted instructions, then resolves each bracket to its
/// partner. Succeeds exactly on streams whose brackets nest correctly and
/// fails with [`AssembleError::UnbalancedBrackets`] otherwise; a successful
/// result is well formed and fully determined by the input stream.
pub fn assemble_tokens(lexed: Vec<Tokens>) -> (r: Result<Vec<ASTEntry>, AssembleError>)
    ensures
        r is Ok <==> balanced(lexed@),
        r matches Ok(res) ==> Some(res@) == spec_assemble(lexed@),
        r matches Ok(res) ==> insts_wf(res@),
        r matches Err(e) ==> e == AssembleError::UnbalancedBrackets,
{
    let n: usize = lexed.len();
    proof {
        assert(lexed@.len() == n);
        lemma_assemble_props(lexed@);
    }
    let entries = collapse_runs(&lexed);
    resolve_brackets(entries)
}

/// Assembles raw program text into an executable instruction list: lexes,
/// collapses runs, and resolves brackets. Succeeds exactly when the
/// program's brackets nest correctly.
pub fn assemble(program: String) -> (r: Result<Vec<ASTEntry>, AssembleError>)
    ensures
        r is Ok <==> balanced(lex_spec(program@)),
        r matches Ok(res) ==> Some(res@) == spec_assemble(lex_spec(program@)),
        r matches Ok(res) ==> insts_wf(res@),
        r matches Err(e) ==> e == AssembleError::UnbalancedBrackets,
{
    assemble_tokens(lex(program))
}

/// Assembling is deterministic: the assembled instruction list is a
/// function of the program text alone, so assembling the same text twice
/// yields identical instruction lists.
pub proof fn lemma_assemble_deterministic(first: Seq<char>, second: Seq<char>)
    requires
        first == second,
    ensures
        spec_assemble(lex_spec(first)) == spec_assemble(lex_spec(second)),
{
}

proof fn lemma_depth_ok_append(ts: Seq<Tokens>, x: Tokens, i: int, d: int)
    requires
        0 <= i <= ts.len(),
        depth_ok(ts, i, d),
        x == Tokens::StartLoop || x == Tokens::EndLoop,
    ensures
        !depth_ok(ts.push(x), i, d),
    decreases ts.len() - i,
{
    let ts2 = ts.push(x);
    if i >= ts.len() {
        assert(ts2[i] == x);
        if x == Tokens::StartLoop {
            assert(!depth_ok(ts2, i + 1, d + 1));
        }
    } else {
        assert(ts2[i] == ts[i]);
        if ts[i] == Tokens::StartLoop {
            lemma_depth_ok_append(ts, x, i + 1, d + 1);
        } else if ts[i] == Tokens::EndLoop {
            lemma_depth_ok_append(ts, x, i + 1, d - 1);
        } else {
            lemma_depth_ok_append(ts, x, i + 1, d);
        }
    }
}

/// A balanced token stream stops being balanced as soon as one unmatched
/// bracket of either kind is appended, or an unmatched `]` is prepended:
/// assembling such a stream fails with unbalanced brackets.
pub proof fn lemma_extra_bracket_unbalanced(ts: Seq<Tokens>)
    requires
        balanced(ts),
        ts.len() < usize::MAX,
    ensures
        !balanced(ts.push(Tokens::StartLoop)),
        !balanced(ts.push(Tokens::EndLoop)),
        !balanced(seq![Tokens::EndLoop] + ts),
        spec_assemble(ts.push(Tokens::StartLoop)) is None,
        spec_assemble(ts.push(Tokens::EndLoop)) is None,
        spec_assemble(seq![Tokens::EndLoop] + ts) is None,
{
    lemma_depth_ok_append(ts, Tokens::StartLoop, 0, 0);
    lemma_depth_ok_append(ts, Tokens::EndLoop, 0, 0);
    assert((seq![Tokens::EndLoop] + ts)[0] == Tokens::EndLoop);
    lemma_assemble_props(ts.push(Tokens::StartLoop));
    lemma_assemble_props(ts.push(Tokens::EndLoop));
    lemma_assemble_props(seq![Tokens::EndLoop] + ts);
}

/// A run of k consecutive `+` assembles to one single instruction carrying
/// repeat count k.
pub proof fn lemma_plus_run_collapses(k: usize)
    requires
        1 <= k,
    ensures
        collapse(Seq::new(k as nat, |m: int| Tokens::Increment)) == seq![
            ASTEntry { token: Tokens::Increment, repeat: k, matching_bracket: None },
        ],
{
    let ts = Seq::new(k as nat, |m: int| Tokens::Increment);
    lemma_run_end_uniform(ts, Tokens::Increment, 0);
    assert(run_of(ts, 0) == k);
    assert(collapse_from(ts, k as int).len() == 0);
    assert(collapse(ts) =~= seq![
        ASTEntry { token: Tokens::Increment, repeat: k, matching_bracket: None },
    ]);
}

} // verus!
