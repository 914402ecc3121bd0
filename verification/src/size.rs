//! Why a sheet cannot be larger than the text it was written in: every
//! cell of every frame is one byte of the document.
use vstd::prelude::*;
use crate::assemble::{assembled, step, Assembly};
use crate::error::Error;
use crate::frames::{frame_height, frame_width, same_size, uniform, well_shaped};
use crate::grammar::{
    spec_all, spec_frame, spec_more_rows, spec_rows, spec_statement, spec_statements,
    StatementModel,
};
use crate::lex::{lemma_run_end, spec_blank, spec_line, spec_num, spec_pixels, spec_sep, ByteClass};

verus! {

/// The number of cells in a list of rows.
pub open spec fn grid_cells(rows: Seq<Seq<u8>>) -> nat
    decreases rows.len(),
{
    if rows.len() == 0 {
        0
    } else {
        rows[0].len() + grid_cells(rows.drop_first())
    }
}

/// The number of cells that a statement holds.
pub open spec fn cells_of(st: StatementModel) -> nat {
    match st {
        StatementModel::Frame(_, rows) => grid_cells(rows),
        _ => 0,
    }
}

/// The number of cells in all frames of a list of statements.
pub open spec fn cells(statements: Seq<StatementModel>) -> nat
    decreases statements.len(),
{
    if statements.len() == 0 {
        0
    } else {
        cells(statements.drop_last()) + cells_of(statements.last())
    }
}

proof fn lemma_cells_prepend(st: StatementModel, rest: Seq<StatementModel>)
    ensures
        cells(seq![st] + rest) == cells_of(st) + cells(rest),
    decreases rest.len(),
{
    if rest.len() == 0 {
        assert(seq![st] + rest =~= seq![st]);
        assert(seq![st].drop_last() =~= Seq::<StatementModel>::empty());
        assert(cells(seq![st].drop_last()) == 0);
        assert(cells(rest) == 0);
    } else {
        assert((seq![st] + rest).drop_last() =~= seq![st] + rest.drop_last());
        assert((seq![st] + rest).last() == rest.last());
        lemma_cells_prepend(st, rest.drop_last());
    }
}

/// A grid without empty rows has at least as many cells as rows.
proof fn lemma_rows_at_most_cells(rows: Seq<Seq<u8>>)
    requires
        forall|r: int| 0 <= r < rows.len() ==> (#[trigger] rows[r]).len() > 0,
    ensures
        rows.len() <= grid_cells(rows),
    decreases rows.len(),
{
    if rows.len() > 0 {
        let rest = rows.drop_first();
        assert forall|r: int| 0 <= r < rest.len() implies (#[trigger] rest[r]).len() > 0 by {
            assert(rest[r] == rows[r + 1]);
        }
        lemma_rows_at_most_cells(rest);
    }
}

proof fn lemma_more_rows_span(s: Seq<u8>, pos: int)
    requires
        0 <= pos <= s.len(),
    ensures
        pos <= spec_more_rows(s, pos).1 <= s.len(),
        grid_cells(spec_more_rows(s, pos).0) <= spec_more_rows(s, pos).1 - pos,
    decreases s.len() - pos,
{
    if let Some((row, end)) = spec_pixels(s, pos + 1) {
        if s[pos] == 0x0a && pos < end <= s.len() {
            lemma_run_end(s, pos + 1, ByteClass::Pixel);
            lemma_more_rows_span(s, end);
            let rest = spec_more_rows(s, end).0;
            assert((seq![row] + rest).drop_first() =~= rest);
        }
    }
}

proof fn lemma_rows_span(s: Seq<u8>, pos: int)
    requires
        0 <= pos <= s.len(),
        spec_rows(s, pos) is Some,
    ensures
        pos <= spec_rows(s, pos).unwrap().1 <= s.len(),
        grid_cells(spec_rows(s, pos).unwrap().0) <= spec_rows(s, pos).unwrap().1 - pos,
{
    let (row, end) = spec_pixels(s, pos).unwrap();
    lemma_run_end(s, pos, ByteClass::Pixel);
    lemma_more_rows_span(s, end);
    let rest = spec_more_rows(s, end).0;
    assert((seq![row] + rest).drop_first() =~= rest);
}

proof fn lemma_frame_span(s: Seq<u8>, pos: int)
    requires
        0 <= pos <= s.len(),
        spec_frame(s, pos) is Some,
    ensures
        cells_of(spec_frame(s, pos).unwrap().0) <= spec_frame(s, pos).unwrap().1 - pos,
{
    let stop1 = spec_num(s, pos).unwrap().1;
    lemma_run_end(s, pos, ByteClass::Digit);
    let stop2 = spec_line(s, stop1).unwrap();
    let stop3 = spec_sep(s, stop2).unwrap();
    lemma_run_end(s, stop2, ByteClass::Rule);
    let stop4 = spec_line(s, stop3).unwrap();
    lemma_rows_span(s, stop4);
    let stop5 = spec_rows(s, stop4).unwrap().1;
    let stop6 = spec_line(s, stop5).unwrap();
    lemma_run_end(s, stop6, ByteClass::Rule);
}

proof fn lemma_statements_span(s: Seq<u8>, pos: int)
    requires
        0 <= pos <= s.len(),
    ensures
        pos <= spec_statements(s, pos).1 <= s.len(),
        cells(spec_statements(s, pos).0) <= spec_statements(s, pos).1 - pos,
    decreases s.len() - pos,
{
    let start = spec_blank(s, pos);
    lemma_run_end(s, pos, ByteClass::Blank);
    if let Some((st, end)) = spec_statement(s, start) {
        if pos < end <= s.len() {
            lemma_statements_span(s, end);
            lemma_cells_prepend(st, spec_statements(s, end).0);
            if st is Frame {
                lemma_frame_span(s, start);
            }
        }
    }
}

/// The statements of a document hold no more cells than the document has
/// bytes.
pub proof fn lemma_document_cells(s: Seq<u8>)
    requires
        spec_all(s) is Ok,
    ensures
        cells(spec_all(s).unwrap()) <= s.len(),
{
    lemma_statements_span(s, 0);
}

/// The frames that were accepted all have the same well shaped size, and
/// neither a row of them side by side nor a column of one of them is
/// longer than the number of cells in the statements.
pub proof fn lemma_assembled_extent(statements: Seq<StatementModel>)
    requires
        assembled(statements) is Ok,
    ensures
        uniform(assembled(statements).unwrap().frames),
        assembled(statements).unwrap().frames.len() * frame_width(
            assembled(statements).unwrap().frames,
        ) <= cells(statements),
        frame_height(assembled(statements).unwrap().frames) <= cells(statements),
    decreases statements.len(),
{
    if statements.len() > 0 {
        let before = assembled(statements.drop_last()).unwrap();
        let after = assembled(statements).unwrap();
        lemma_assembled_extent(statements.drop_last());
        assert(step(before, statements.last()) == Ok::<Assembly, Error>(after));
        if let StatementModel::Frame(_, rows) = statements.last() {
            let n = before.frames.len() as int;
            let w = rows[0].len() as int;
            assert(after.frames == before.frames.push(rows));
            assert(after.frames[n] == rows);
            lemma_rows_at_most_cells(rows);
            if n > 0 {
                assert(same_size(before.frames.last(), before.frames[0]));
                assert(after.frames[0] == before.frames[0]);
            }
            assert forall|i: int| 0 <= i < after.frames.len() implies well_shaped(
                #[trigger] after.frames[i],
            ) && same_size(after.frames[i], after.frames[0]) by {
                if i < n {
                    assert(after.frames[i] == before.frames[i]);
                }
            }
            assert(frame_width(after.frames) == w);
            assert((n + 1) * w == n * w + w) by (nonlinear_arith);
            assert(n == 0 ==> n * w == 0);
        }
    }
}

} // verus!
