//! Why the program of a source whose brackets match is well linked: every
//! loop instruction has a partner, and linking names it.

use vstd::prelude::*;
use crate::compiler::{lemma_nesting_agrees, lemma_nesting_of_prefix};
use crate::instruction::Instruction;
use crate::syntax::{
    balanced, bracket_depth, closing_index, compile_result, encloses, folded, folded_prefix, linked,
    nesting, opening_index, unmatched_close_at, well_linked, CompileError,
};

verus! {

/// Folding gives one instruction for each byte at most.
pub proof fn lemma_folded_is_no_longer(source: Seq<u8>, upto: int)
    requires
        0 <= upto,
    ensures
        folded_prefix(source, upto).len() <= upto,
    decreases upto,
{
    if upto > 0 {
        lemma_folded_is_no_longer(source, upto - 1);
    }
}

/// The instructions that a beginning of the source folds to nest as deep as
/// the brackets of that beginning.
proof fn lemma_folded_nests_as_source(source: Seq<u8>, upto: int)
    requires
        0 <= upto <= source.len(),
    ensures
        nesting(folded_prefix(source, upto), folded_prefix(source, upto).len() as int)
            == bracket_depth(source, upto),
    decreases upto,
{
    if upto > 0 {
        lemma_folded_nests_as_source(source, upto - 1);
        let earlier = folded_prefix(source, upto - 1);
        let code = folded_prefix(source, upto);
        if code.len() > earlier.len() {
            lemma_nesting_of_prefix(earlier, code, earlier.len() as int);
        }
    }
}

/// Where the brackets of the source never close more than was opened, the
/// nesting of the folded instructions is never negative.
proof fn lemma_folded_nesting_is_never_negative(source: Seq<u8>, upto: int)
    requires
        0 <= upto <= source.len(),
        forall|k: int| 0 <= k <= upto ==> #[trigger] bracket_depth(source, k) >= 0,
    ensures
        forall|m: int|
            0 <= m <= folded_prefix(source, upto).len() ==> #[trigger] nesting(
                folded_prefix(source, upto),
                m,
            ) >= 0,
    decreases upto,
{
    let code = folded_prefix(source, upto);
    if upto > 0 {
        let earlier = folded_prefix(source, upto - 1);
        lemma_folded_nesting_is_never_negative(source, upto - 1);
        lemma_folded_nests_as_source(source, upto);
        if code.len() > earlier.len() {
            lemma_nesting_agrees(earlier, code);
        }
    }
}

/// A source without an unmatched `]` never closes more than was opened.
proof fn lemma_depth_is_never_negative(source: Seq<u8>, upto: int)
    requires
        0 <= upto <= source.len(),
        forall|at: int| !unmatched_close_at(source, at),
    ensures
        forall|k: int| 0 <= k <= upto ==> #[trigger] bracket_depth(source, k) >= 0,
    decreases upto,
{
    if upto > 0 {
        lemma_depth_is_never_negative(source, upto - 1);
        if bracket_depth(source, upto) < 0 {
            assert(unmatched_close_at(source, upto - 1));
        }
    }
}

/// Looks for the `LoopEnd` that closes the loop opened at `open`, from
/// `from` on, up to which the loop is known to be open.
proof fn lemma_closing_exists_from(code: Seq<Instruction>, open: int, from: int) -> (close: int)
    requires
        0 <= open < from <= code.len(),
        code[open].opcode is LoopStart,
        nesting(code, code.len() as int) <= nesting(code, open),
        forall|m: int| open < m <= from ==> #[trigger] nesting(code, m) > nesting(code, open),
    ensures
        encloses(code, open, close),
    decreases code.len() - from,
{
    assert(nesting(code, from) > nesting(code, open));
    if nesting(code, from + 1) == nesting(code, open) {
        from
    } else {
        lemma_closing_exists_from(code, open, from + 1)
    }
}

/// Looks for the `LoopStart` of the loop that `close` closes, from `from`
/// down, down to which the loop is known to be open.
proof fn lemma_opening_exists_from(code: Seq<Instruction>, from: int, close: int) -> (open: int)
    requires
        0 <= from <= close < code.len(),
        code[close].opcode is LoopEnd,
        nesting(code, close + 1) >= 0,
        forall|m: int| from <= m <= close ==> #[trigger] nesting(code, m) > nesting(code, close + 1),
    ensures
        encloses(code, open, close),
    decreases from,
{
    assert(nesting(code, from) > nesting(code, close + 1));
    if nesting(code, from - 1) == nesting(code, close + 1) {
        from - 1
    } else {
        lemma_opening_exists_from(code, from - 1, close)
    }
}

/// In code whose loops match, every loop instruction has a partner, and
/// linking names it.
pub proof fn lemma_linked_names_partners(code: Seq<Instruction>)
    requires
        code.len() <= usize::MAX,
        balanced(code),
    ensures
        forall|i: int|
            0 <= i < code.len() && (#[trigger] code[i]).opcode is LoopStart ==> encloses(
                code,
                i,
                linked(code)[i].operand as int,
            ),
        forall|i: int|
            0 <= i < code.len() && (#[trigger] code[i]).opcode is LoopEnd ==> encloses(
                code,
                linked(code)[i].operand as int,
                i,
            ),
{
    assert forall|i: int|
        0 <= i < code.len() && (#[trigger] code[i]).opcode is LoopStart implies encloses(
        code,
        i,
        linked(code)[i].operand as int,
    ) by {
        lemma_closing_exists_from(code, i, i + 1);
        assert(encloses(code, i, closing_index(code, i)));
    }
    assert forall|i: int|
        0 <= i < code.len() && (#[trigger] code[i]).opcode is LoopEnd implies encloses(
        code,
        linked(code)[i].operand as int,
        i,
    ) by {
        lemma_opening_exists_from(code, i, i);
        assert(encloses(code, opening_index(code, i), i));
    }
}

/// In code whose nesting is never negative and ends at zero, linking makes
/// every loop instruction name its partner.
pub proof fn lemma_linked_is_well_linked(code: Seq<Instruction>)
    requires
        code.len() <= usize::MAX,
        nesting(code, code.len() as int) == 0,
        forall|m: int| 0 <= m <= code.len() ==> #[trigger] nesting(code, m) >= 0,
    ensures
        well_linked(linked(code)),
{
    let program = linked(code);
    lemma_nesting_agrees(code, program);
    lemma_nesting_agrees(program, code);
    assert forall|i: int|
        0 <= i < program.len() && (#[trigger] program[i]).opcode is LoopStart implies encloses(
        program,
        i,
        program[i].operand as int,
    ) by {
        lemma_closing_exists_from(code, i, i + 1);
        assert(encloses(code, i, closing_index(code, i)));
    }
    assert forall|i: int|
        0 <= i < program.len() && (#[trigger] program[i]).opcode is LoopEnd implies encloses(
        program,
        program[i].operand as int,
        i,
    ) by {
        lemma_opening_exists_from(code, i, i);
        assert(encloses(code, opening_index(code, i), i));
    }
}

/// Whenever a source has a program, the loops of the instructions that the
/// source folds to match, and the program is those instructions, linked.
pub proof fn lemma_compiled_is_balanced(source: Seq<u8>)
    requires
        compile_result(source) is Ok,
    ensures
        balanced(folded(source)),
        compile_result(source) == Ok::<Seq<Instruction>, CompileError>(linked(folded(source))),
{
    let count = source.len() as int;
    lemma_depth_is_never_negative(source, count);
    lemma_folded_nesting_is_never_negative(source, count);
    lemma_folded_nests_as_source(source, count);
}

/// Whenever a source has a program, every `LoopStart` of the program names
/// the `LoopEnd` that closes it and every `LoopEnd` names the `LoopStart`
/// that it closes, however deep the loops are nested.
pub proof fn lemma_compiled_loops_are_paired(source: Seq<u8>)
    requires
        source.len() <= usize::MAX,
    ensures
        compile_result(source) matches Ok(program) ==> well_linked(program),
{
    if compile_result(source) is Ok {
        let count = source.len() as int;
        lemma_depth_is_never_negative(source, count);
        lemma_folded_nesting_is_never_negative(source, count);
        lemma_folded_nests_as_source(source, count);
        lemma_folded_is_no_longer(source, count);
        lemma_linked_is_well_linked(folded(source));
    }
}

} // verus!
