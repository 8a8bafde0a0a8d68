//! Structural parsing: token sequence to a nested instruction tree.
//!
//! The parser scans the tokens once, translating the six leaf tokens directly
//! and turning each matched bracket pair into a `Loop` node whose children
//! are the recursively parsed tokens strictly between the brackets. A closing
//! bracket with no open loop, or an opening bracket never closed, is a
//! structural error reported with its token index; no partial tree is ever
//! returned.

use vstd::prelude::*;
use crate::lexer::LexicalInst;

verus! {

/// An executable instruction: six leaf kinds plus `Loop`, which owns its
/// ordered child instructions (a tree — no sharing, no cycles).
#[derive(Debug)]
pub enum Instruction {
    MovRight,
    MovLeft,
    Inc,
    Dec,
    Read,
    Write,
    Loop(Vec<Instruction>),
}

/// A structural error: the token index it was detected at.
#[derive(Clone, Copy, PartialEq, Eq, Structural, Debug)]
pub enum ParseError {
    /// A closing bracket with no corresponding open loop, at this token index.
    UnmatchedClosing { index: usize },
    /// An opening bracket never closed; the index is where the innermost
    /// unclosed loop opened (the last unclosed opening bracket).
    UnmatchedOpening { index: usize },
}

/// How a token changes the bracket-nesting depth.
pub open spec fn depth_delta(t: LexicalInst) -> int {
    match t {
        LexicalInst::IniLoop => 1,
        LexicalInst::EndLoop => -1,
        _ => 0,
    }
}

/// The nesting depth after the first `i` tokens (opens minus closes).
pub open spec fn depth_at(toks: Seq<LexicalInst>, i: int) -> int
    decreases i,
{
    if i <= 0 {
        0
    } else {
        depth_at(toks, i - 1) + depth_delta(toks[i - 1])
    }
}

/// No prefix of the tokens closes more brackets than were opened.
pub open spec fn never_below_zero(toks: Seq<LexicalInst>) -> bool {
    forall|i: int| 0 <= i <= toks.len() ==> depth_at(toks, i) >= 0
}

/// Brackets are balanced: no prefix goes negative and the total depth is zero.
pub open spec fn balanced(toks: Seq<LexicalInst>) -> bool {
    never_below_zero(toks) && depth_at(toks, toks.len() as int) == 0
}

/// `i` is the first closing bracket that has no open loop to close.
pub open spec fn unmatched_close_at(toks: Seq<LexicalInst>, i: int) -> bool {
    &&& 0 <= i < toks.len()
    &&& toks[i] is EndLoop
    &&& depth_at(toks, i) == 0
    &&& forall|j: int| 0 <= j < i ==> !(toks[j] is EndLoop && depth_at(toks, j) == 0)
}

/// The bracket at `i` opens a loop that is never closed: from right after it
/// to the end of the tokens, the depth never comes back down to the depth it
/// opened at.
pub open spec fn open_never_closed(toks: Seq<LexicalInst>, i: int) -> bool {
    &&& toks[i] is IniLoop
    &&& forall|j: int| i < j <= toks.len() ==> depth_at(toks, j) > depth_at(toks, i)
}

/// No closing bracket is unmatched, and `i` opens the innermost loop that is
/// never closed — the last unclosed opening bracket, the deepest one still
/// open when the tokens end.
pub open spec fn unmatched_open_at(toks: Seq<LexicalInst>, i: int) -> bool {
    &&& 0 <= i < toks.len()
    &&& never_below_zero(toks)
    &&& open_never_closed(toks, i)
    &&& forall|k: int| i < k < toks.len() ==> !open_never_closed(toks, k)
}

/// The token sequence a single instruction prints back to: a leaf is its own
/// token; a loop is its body's tokens wrapped in one bracket pair.
pub open spec fn unparse_inst(inst: Instruction) -> Seq<LexicalInst>
    decreases inst,
{
    match inst {
        Instruction::MovRight => seq![LexicalInst::MovRight],
        Instruction::MovLeft => seq![LexicalInst::MovLeft],
        Instruction::Inc => seq![LexicalInst::Inc],
        Instruction::Dec => seq![LexicalInst::Dec],
        Instruction::Read => seq![LexicalInst::Read],
        Instruction::Write => seq![LexicalInst::Write],
        Instruction::Loop(body) => seq![LexicalInst::IniLoop] + unparse_prog(body@)
            + seq![LexicalInst::EndLoop],
    }
}

/// The token sequence an instruction sequence prints back to.
pub open spec fn unparse_prog(prog: Seq<Instruction>) -> Seq<LexicalInst>
    decreases prog,
{
    if prog.len() == 0 {
        Seq::empty()
    } else {
        unparse_inst(prog[0]) + unparse_prog(prog.drop_first())
    }
}

/// Appending an instruction appends its tokens.
pub proof fn lemma_unparse_push(prog: Seq<Instruction>, inst: Instruction)
    ensures
        unparse_prog(prog.push(inst)) == unparse_prog(prog) + unparse_inst(inst),
    decreases prog.len(),
{
    let p = prog.push(inst);
    if prog.len() == 0 {
        assert(p[0] == inst);
        assert(p.drop_first() =~= Seq::<Instruction>::empty());
        assert(unparse_prog(p) == unparse_inst(inst) + unparse_prog(Seq::<Instruction>::empty()));
        assert(unparse_inst(inst) + Seq::<LexicalInst>::empty() =~= unparse_inst(inst));
        assert(unparse_prog(prog) + unparse_inst(inst) =~= unparse_inst(inst));
    } else {
        assert(p[0] == prog[0]);
        assert(p.drop_first() =~= prog.drop_first().push(inst));
        lemma_unparse_push(prog.drop_first(), inst);
        assert(unparse_prog(p) == unparse_inst(prog[0]) + (unparse_prog(prog.drop_first())
            + unparse_inst(inst)));
        assert(unparse_inst(prog[0]) + (unparse_prog(prog.drop_first()) + unparse_inst(inst))
            =~= (unparse_inst(prog[0]) + unparse_prog(prog.drop_first())) + unparse_inst(inst));
    }
}

/// Depth inside a subrange, relative to the depth where the subrange starts.
pub proof fn lemma_depth_subrange(toks: Seq<LexicalInst>, a: int, b: int, k: int)
    requires
        0 <= a <= b <= toks.len(),
        0 <= k <= b - a,
    ensures
        depth_at(toks.subrange(a, b), k) == depth_at(toks, a + k) - depth_at(toks, a),
    decreases k,
{
    if k > 0 {
        lemma_depth_subrange(toks, a, b, k - 1);
    }
}

/// Number of leaf instructions in a single instruction's tree: a leaf counts
/// one; a loop counts its whole body.
pub open spec fn leaf_count_inst(inst: Instruction) -> nat
    decreases inst,
{
    match inst {
        Instruction::Loop(body) => leaf_count_prog(body@),
        _ => 1,
    }
}

/// Total leaf-instruction count of an instruction sequence's trees.
pub open spec fn leaf_count_prog(prog: Seq<Instruction>) -> nat
    decreases prog,
{
    if prog.len() == 0 {
        0
    } else {
        leaf_count_inst(prog[0]) + leaf_count_prog(prog.drop_first())
    }
}

/// Number of non-bracket tokens in a token sequence.
pub open spec fn leaf_token_count(toks: Seq<LexicalInst>) -> nat
    decreases toks.len(),
{
    if toks.len() == 0 {
        0
    } else {
        (if toks[0] is IniLoop || toks[0] is EndLoop {
            0nat
        } else {
            1nat
        }) + leaf_token_count(toks.drop_first())
    }
}

proof fn lemma_leaf_token_count_add(a: Seq<LexicalInst>, b: Seq<LexicalInst>)
    ensures
        leaf_token_count(a + b) == leaf_token_count(a) + leaf_token_count(b),
    decreases a.len(),
{
    if a.len() == 0 {
        assert(a + b =~= b);
    } else {
        assert((a + b)[0] == a[0]);
        assert((a + b).drop_first() =~= a.drop_first() + b);
        lemma_leaf_token_count_add(a.drop_first(), b);
    }
}

/// Round-trip on balance, counted: a tree's total leaf-instruction count
/// equals the number of non-bracket tokens among the tokens it prints back
/// to. Together with the parser's contract this says that parsing a balanced
/// token sequence yields a tree with exactly one leaf instruction per
/// non-bracket input token.
pub proof fn lemma_leaf_count(prog: Seq<Instruction>)
    ensures
        leaf_count_prog(prog) == leaf_token_count(unparse_prog(prog)),
    decreases prog, 1int,
{
    if prog.len() > 0 {
        lemma_leaf_count_inst(prog[0]);
        lemma_leaf_count(prog.drop_first());
        lemma_leaf_token_count_add(unparse_inst(prog[0]), unparse_prog(prog.drop_first()));
    }
}

/// The single-instruction case of [`lemma_leaf_count`].
pub proof fn lemma_leaf_count_inst(inst: Instruction)
    ensures
        leaf_count_inst(inst) == leaf_token_count(unparse_inst(inst)),
    decreases inst, 0int,
{
    match inst {
        Instruction::Loop(body) => {
            lemma_leaf_count(body@);
            lemma_leaf_token_count_add(seq![LexicalInst::IniLoop], unparse_prog(body@));
            lemma_leaf_token_count_add(
                seq![LexicalInst::IniLoop] + unparse_prog(body@),
                seq![LexicalInst::EndLoop],
            );
            assert(seq![LexicalInst::IniLoop].drop_first() =~= Seq::<LexicalInst>::empty());
            assert(seq![LexicalInst::EndLoop].drop_first() =~= Seq::<LexicalInst>::empty());
            assert(leaf_token_count(Seq::<LexicalInst>::empty()) == 0);
            assert(leaf_token_count(seq![LexicalInst::IniLoop]) == 0);
            assert(leaf_token_count(seq![LexicalInst::EndLoop]) == 0);
        },
        _ => {
            assert(unparse_inst(inst).drop_first() =~= Seq::<LexicalInst>::empty());
            assert(leaf_token_count(Seq::<LexicalInst>::empty()) == 0);
        },
    }
}

/// Copies out the tokens in `[a, b)`.
fn subrange_vec(v: &Vec<LexicalInst>, a: usize, b: usize) -> (r: Vec<LexicalInst>)
    requires
        a <= b <= v@.len(),
    ensures
        r@ == v@.subrange(a as int, b as int),
{
    let mut r: Vec<LexicalInst> = Vec::new();
    let mut k: usize = a;
    while k < b
        invariant
            a <= k <= b <= v@.len(),
            r@ == v@.subrange(a as int, k as int),
        decreases b - k,
    {
        r.push(v[k]);
        proof {
            assert(v@.subrange(a as int, k + 1 as int) =~= v@.subrange(a as int, k as int).push(
                v@[k as int],
            ));
        }
        k = k + 1;
    }
    r
}

/// Builds the instruction tree for a token sequence.
///
/// Succeeds exactly on balanced inputs, and then the tree prints back to the
/// input tokens (so every loop body is the complete region strictly between
/// its matched brackets, and every leaf token appears as its instruction, in
/// order). A closing bracket at depth zero fails with its index; an input
/// ending at positive depth fails with the index where the innermost
/// unclosed loop opened. No partial tree is returned on failure.
pub fn parse_instructions(lex_inst: Vec<LexicalInst>) -> (r: Result<
    Vec<Instruction>,
    ParseError,
>)
    ensures
        balanced(lex_inst@) <==> r is Ok,
        match r {
            Ok(program) => unparse_prog(program@) == lex_inst@,
            Err(ParseError::UnmatchedClosing { index }) => unmatched_close_at(
                lex_inst@,
                index as int,
            ),
            Err(ParseError::UnmatchedOpening { index }) => unmatched_open_at(
                lex_inst@,
                index as int,
            ),
        },
    decreases lex_inst@.len(),
{
    let ghost toks = lex_inst@;
    let mut program: Vec<Instruction> = Vec::new();
    // indices of the opening brackets whose loops are still open, outermost
    // first; its length is the current nesting depth
    let mut opens: Vec<usize> = Vec::new();
    let n: usize = lex_inst.len();
    let mut i: usize = 0;
    while i < n
        invariant
            i <= n,
            n == toks.len(),
            toks == lex_inst@,
            opens@.len() == depth_at(toks, i as int),
            forall|j: int| 0 <= j <= i ==> depth_at(toks, j) >= 0,
            forall|j: int| 0 <= j < i ==> !(toks[j] is EndLoop && depth_at(toks, j) == 0),
            forall|k: int| 0 <= k < opens@.len() ==> {
                &&& opens@[k] < i
                &&& toks[opens@[k] as int] is IniLoop
                &&& depth_at(toks, opens@[k] as int) == k
            },
            forall|k: int, j: int|
                #![trigger opens@[k], depth_at(toks, j)]
                0 <= k < opens@.len() && opens@[k] < j <= i ==> depth_at(toks, j) > k,
            opens@.len() == 0 ==> unparse_prog(program@) == toks.take(i as int),
            opens@.len() > 0 ==> unparse_prog(program@) == toks.take(opens@[0] as int),
        decreases n - i,
    {
        let l_inst = lex_inst[i];
        if opens.len() == 0 {
            let inst_opt = match l_inst {
                LexicalInst::MovRight => Some(Instruction::MovRight),
                LexicalInst::MovLeft => Some(Instruction::MovLeft),
                LexicalInst::Inc => Some(Instruction::Inc),
                LexicalInst::Dec => Some(Instruction::Dec),
                LexicalInst::Write => Some(Instruction::Write),
                LexicalInst::Read => Some(Instruction::Read),
                LexicalInst::IniLoop => {
                    opens.push(i);
                    None
                },
                LexicalInst::EndLoop => {
                    proof {
                        assert(depth_at(toks, i + 1 as int) == -1);
                        assert(!never_below_zero(toks));
                    }
                    return Err(ParseError::UnmatchedClosing { index: i });
                },
            };
            match inst_opt {
                Some(inst) => {
                    let ghost prog0 = program@;
                    program.push(inst);
                    proof {
                        lemma_unparse_push(prog0, inst);
                        assert(unparse_inst(inst) =~= seq![toks[i as int]]);
                        assert(toks.take(i as int) + seq![toks[i as int]] =~= toks.take(
                            i + 1 as int,
                        ));
                    }
                },
                None => (),
            }
        } else {
            match l_inst {
                LexicalInst::IniLoop => {
                    opens.push(i);
                },
                LexicalInst::EndLoop => {
                    let o: usize = match opens.pop() {
                        Some(x) => x,
                        None => {
                            proof {
                                assert(false);
                            }
                            0
                        },
                    };
                    if opens.len() == 0 {
                        let sub = subrange_vec(&lex_inst, o + 1, i);
                        proof {
                            assert forall|k: int| 0 <= k <= sub@.len() implies depth_at(
                                sub@,
                                k,
                            ) >= 0 by {
                                lemma_depth_subrange(toks, o + 1 as int, i as int, k);
                                assert(depth_at(toks, o + 1 as int) == 1);
                            }
                            lemma_depth_subrange(toks, o + 1 as int, i as int, i - o - 1);
                            assert(depth_at(toks, o + 1 as int) == 1);
                            assert(balanced(sub@));
                        }
                        let sub_prog = match parse_instructions(sub) {
                            Ok(p) => p,
                            Err(_) => {
                                proof {
                                    assert(false);
                                }
                                Vec::new()
                            },
                        };
                        let ghost sub_view = sub_prog@;
                        let ghost gi: Instruction = Instruction::Loop(sub_prog);
                        let ghost prog0 = program@;
                        program.push(Instruction::Loop(sub_prog));
                        proof {
                            lemma_unparse_push(prog0, gi);
                            assert(unparse_inst(gi) == (seq![LexicalInst::IniLoop] + unparse_prog(
                                sub_view,
                            )) + seq![LexicalInst::EndLoop]);
                            assert(toks.take(o as int) + ((seq![LexicalInst::IniLoop] + sub@)
                                + seq![LexicalInst::EndLoop]) =~= toks.take(i + 1 as int));
                            assert(unparse_prog(program@) == toks.take(i + 1 as int));
                        }
                    }
                },
                _ => (),
            }
        }
        i = i + 1;
    }
    if opens.len() > 0 {
        let index: usize = opens[opens.len() - 1];
        proof {
            let d = opens@.len() as int;
            assert(depth_at(toks, index as int) == d - 1);
            assert(depth_at(toks, n as int) == d);
            assert forall|k: int| index < k < n implies !open_never_closed(toks, k) by {
                assert(depth_at(toks, k) > d - 1);
                assert(!(depth_at(toks, n as int) > depth_at(toks, k)));
            }
            assert(!balanced(toks));
        }
        return Err(ParseError::UnmatchedOpening { index });
    }
    proof {
        assert(toks.take(n as int) =~= toks);
    }
    Ok(program)
}

} // verus!
