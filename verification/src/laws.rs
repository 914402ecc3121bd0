//! What holds of every document, stated over the same functions as the
//! contracts of the library and proved from their definitions.
use vstd::prelude::*;
use crate::assemble::{assembled, lemma_failure_stays, step, Assembly};
use crate::canon::{canonical, lemma_canonical_text_reads_back, lemma_parsed_is_printable};
use crate::color::Color;
use crate::error::Error;
use crate::frames::{same_size, well_shaped};
use crate::grammar::{spec_all, Anim, StatementModel};
use crate::raster::{
    cell, cell_color, in_grids, rasterizes, reports_first_unresolved, resolved_before, resolves,
    ImageData, Layout, Quad,
};
use crate::sheet::{compiles, Dirt};
use crate::size::lemma_assembled_extent;

verus! {

/// The number of frames among the statements.
pub open spec fn frame_count(statements: Seq<StatementModel>) -> nat
    decreases statements.len(),
{
    if statements.len() == 0 {
        0
    } else {
        frame_count(statements.drop_last()) + if statements.last() is Frame {
            1nat
        } else {
            0nat
        }
    }
}

/// The number of frames among the first `i` statements.
pub open spec fn frames_before(statements: Seq<StatementModel>, i: int) -> nat {
    frame_count(statements.take(i))
}

/// Statement `i` is a frame whose index is not the number of frames
/// before it plus one: an index that was skipped, repeated or is out of
/// order.
pub open spec fn misnumbered(statements: Seq<StatementModel>, i: int) -> bool {
    &&& 0 <= i < statements.len()
    &&& match statements[i] {
        StatementModel::Frame(index, _) => index != frames_before(statements, i) + 1,
        _ => false,
    }
}

/// Two grids differ in their number of rows or in the length of some row.
pub open spec fn differ(a: Seq<Seq<u8>>, b: Seq<Seq<u8>>) -> bool {
    ||| a.len() != b.len()
    ||| exists|r1: int, r2: int|
        0 <= r1 < a.len() && 0 <= r2 < b.len() && (#[trigger] a[r1]).len() != (#[trigger] b[r2]).len()
}

/// What reading the first `n` statements has done: on success every frame
/// among them was well numbered and stands in the list at its place; a
/// failure other than a dimension error means that one was misnumbered.
proof fn lemma_prefix(statements: Seq<StatementModel>, n: int)
    requires
        0 <= n <= statements.len(),
    ensures
        match assembled(statements.take(n)) {
            Ok(a) => {
                &&& a.frames.len() == frames_before(statements, n)
                &&& forall|k: int|
                    0 <= k < n ==> !misnumbered(statements, k) && (match #[trigger] statements[k] {
                        StatementModel::Frame(_, rows) => frames_before(statements, k)
                            < a.frames.len() && a.frames[frames_before(statements, k) as int]
                            == rows,
                        _ => true,
                    })
            },
            Err(e) => e == Error::Dimension || exists|k: int|
                0 <= k < n && misnumbered(statements, k),
        },
    decreases n,
{
    if n == 0 {
        assert(statements.take(0) =~= Seq::<StatementModel>::empty());
    } else {
        lemma_prefix(statements, n - 1);
        assert(statements.take(n).drop_last() =~= statements.take(n - 1));
        assert(statements.take(n).last() == statements[n - 1]);
        match assembled(statements.take(n - 1)) {
            Ok(a) => {
                assert(assembled(statements.take(n)) == step(a, statements[n - 1]));
                match assembled(statements.take(n)) {
                    Ok(b) => {
                        assert forall|k: int| 0 <= k < n implies !misnumbered(statements, k) && (
                        match #[trigger] statements[k] {
                            StatementModel::Frame(_, rows) => frames_before(statements, k)
                                < b.frames.len() && b.frames[frames_before(
                                statements,
                                k,
                            ) as int] == rows,
                            _ => true,
                        }) by {
                            if k < n - 1 {
                                if statements[k] is Frame {
                                    assert(b.frames[frames_before(statements, k) as int]
                                        == a.frames[frames_before(statements, k) as int]);
                                }
                            }
                        }
                    },
                    Err(e) => {
                        if e != Error::Dimension {
                            assert(misnumbered(statements, n - 1));
                        }
                    },
                }
            },
            Err(e) => {},
        }
    }
}

/// A document with a misnumbered frame is never assembled.
pub proof fn lemma_misnumbered_frame_is_rejected(statements: Seq<StatementModel>, i: int)
    requires
        misnumbered(statements, i),
    ensures
        assembled(statements) is Err,
{
    lemma_prefix(statements, statements.len() as int);
    assert(statements.take(statements.len() as int) =~= statements);
}

/// Where the statements before a misnumbered frame were all accepted,
/// assembly fails with the order error that names the index that was
/// expected there and the index that was found.
pub proof fn lemma_first_misnumbered_frame_is_reported(
    statements: Seq<StatementModel>,
    i: int,
    index: u32,
    rows: Seq<Seq<u8>>,
)
    requires
        0 <= i < statements.len(),
        statements[i] == StatementModel::Frame(index, rows),
        index != frames_before(statements, i) + 1,
        assembled(statements.take(i)) is Ok,
    ensures
        assembled(statements) == Err::<Assembly, Error>(
            Error::FrameOrder {
                expected: (frames_before(statements, i) + 1) as usize,
                actual: index,
            },
        ),
{
    lemma_prefix(statements, i);
    assert(statements.take(i + 1).drop_last() =~= statements.take(i));
    assert(statements.take(i + 1).last() == statements[i]);
    lemma_failure_stays(statements, i + 1);
}

/// A document in which two frames differ in their number of rows or in
/// the length of a row is never assembled; and where no frame up to the
/// second of the two is misnumbered, what it fails with is the dimension
/// error.
pub proof fn lemma_frames_of_different_size_are_rejected(
    statements: Seq<StatementModel>,
    i: int,
    j: int,
)
    requires
        0 <= i < j < statements.len(),
        statements[i] is Frame,
        statements[j] is Frame,
        differ(statements[i]->Frame_1, statements[j]->Frame_1),
    ensures
        assembled(statements) is Err,
        (forall|k: int| 0 <= k <= j ==> !misnumbered(statements, k)) ==> assembled(statements)
            == Err::<Assembly, Error>(Error::Dimension),
{
    let upto = statements.take(j + 1);
    lemma_prefix(statements, j + 1);
    if let Ok(a) = assembled(upto) {
        lemma_assembled_extent(upto);
        let x = statements[i]->Frame_1;
        let y = statements[j]->Frame_1;
        let fi = frames_before(statements, i) as int;
        let fj = frames_before(statements, j) as int;
        assert(a.frames[fi] == x && a.frames[fj] == y);
        assert(well_shaped(a.frames[fi]) && same_size(a.frames[fi], a.frames[0]));
        assert(well_shaped(a.frames[fj]) && same_size(a.frames[fj], a.frames[0]));
        assert forall|r1: int, r2: int| 0 <= r1 < x.len() && 0 <= r2 < y.len() implies (
        #[trigger] x[r1]).len() == (#[trigger] y[r2]).len() by {
            assert(x[r1].len() == x[0].len());
            assert(y[r2].len() == y[0].len());
        }
        assert(!differ(x, y));
    }
    lemma_failure_stays(statements, j + 1);
}

/// Statement `k` declares an animation under `name`.
pub open spec fn declares(statements: Seq<StatementModel>, k: int, name: Seq<u8>) -> bool {
    match statements[k] {
        StatementModel::Anim(n, _) => n == name,
        _ => false,
    }
}

/// Statement `k` is a palette entry for `key`.
pub open spec fn colours(statements: Seq<StatementModel>, k: int, key: u8) -> bool {
    match statements[k] {
        StatementModel::Color(c, _) => c == key,
        _ => false,
    }
}

proof fn lemma_prefix_is_assembled(statements: Seq<StatementModel>, n: int)
    requires
        0 <= n <= statements.len(),
        assembled(statements) is Ok,
    ensures
        assembled(statements.take(n)) is Ok,
{
    if assembled(statements.take(n)) is Err {
        lemma_failure_stays(statements, n);
    }
}

proof fn lemma_declaration_stays(
    statements: Seq<StatementModel>,
    i: int,
    name: Seq<u8>,
    range: Anim,
    n: int,
)
    requires
        0 <= i < n <= statements.len(),
        statements[i] == StatementModel::Anim(name, range),
        forall|k: int| i < k < statements.len() ==> !declares(statements, k, name),
        assembled(statements) is Ok,
    ensures
        assembled(statements.take(n)) is Ok,
        assembled(statements.take(n)).unwrap().anims.contains_key(name),
        assembled(statements.take(n)).unwrap().anims[name] == range,
    decreases n,
{
    lemma_prefix_is_assembled(statements, n);
    lemma_prefix_is_assembled(statements, n - 1);
    assert(statements.take(n).drop_last() =~= statements.take(n - 1));
    assert(statements.take(n).last() == statements[n - 1]);
    if n > i + 1 {
        lemma_declaration_stays(statements, i, name, range, n - 1);
        assert(!declares(statements, n - 1, name));
    }
}

proof fn lemma_entry_stays(statements: Seq<StatementModel>, i: int, key: u8, c: Color, n: int)
    requires
        0 <= i < n <= statements.len(),
        statements[i] == StatementModel::Color(key, c),
        forall|k: int| i < k < statements.len() ==> !colours(statements, k, key),
        assembled(statements) is Ok,
    ensures
        assembled(statements.take(n)) is Ok,
        assembled(statements.take(n)).unwrap().palette.contains_key(key),
        assembled(statements.take(n)).unwrap().palette[key] == c,
    decreases n,
{
    lemma_prefix_is_assembled(statements, n);
    lemma_prefix_is_assembled(statements, n - 1);
    assert(statements.take(n).drop_last() =~= statements.take(n - 1));
    assert(statements.take(n).last() == statements[n - 1]);
    if n > i + 1 {
        lemma_entry_stays(statements, i, key, c, n - 1);
        assert(!colours(statements, n - 1, key));
    }
}

/// The last declaration of an animation name is the one that the
/// assembled table holds.
pub proof fn lemma_last_declaration_wins(
    statements: Seq<StatementModel>,
    i: int,
    name: Seq<u8>,
    range: Anim,
)
    requires
        0 <= i < statements.len(),
        statements[i] == StatementModel::Anim(name, range),
        forall|k: int| i < k < statements.len() ==> !declares(statements, k, name),
        assembled(statements) is Ok,
    ensures
        assembled(statements).unwrap().anims.contains_key(name),
        assembled(statements).unwrap().anims[name] == range,
{
    lemma_declaration_stays(statements, i, name, range, statements.len() as int);
    assert(statements.take(statements.len() as int) =~= statements);
}

/// The last palette entry for a key is the one that the assembled
/// palette holds, wherever in the document it stands.
pub proof fn lemma_last_palette_entry_wins(
    statements: Seq<StatementModel>,
    i: int,
    key: u8,
    c: Color,
)
    requires
        0 <= i < statements.len(),
        statements[i] == StatementModel::Color(key, c),
        forall|k: int| i < k < statements.len() ==> !colours(statements, k, key),
        assembled(statements) is Ok,
    ensures
        assembled(statements).unwrap().palette.contains_key(key),
        assembled(statements).unwrap().palette[key] == c,
{
    lemma_entry_stays(statements, i, key, c, statements.len() as int);
    assert(statements.take(statements.len() as int) =~= statements);
}

/// Where a cell is neither `.` nor a palette key, every rasterization
/// fails, and the error names a cell that has no colour: this cell if no
/// cell before it in reading order is without one.
pub proof fn lemma_unresolved_cell_is_reported(
    gs: Seq<Seq<Seq<u8>>>,
    palette: Map<u8, Color>,
    layout: Layout,
    r: Result<(ImageData, Vec<Quad>), Error>,
    f: int,
    row: int,
    column: int,
)
    requires
        rasterizes(gs, palette, layout, r),
        in_grids(gs, f, row, column),
        cell_color(palette, cell(gs, f, row, column)) is None,
    ensures
        r is Err,
        r->Err_0 is PaletteResolution,
        cell_color(palette, r->Err_0->PaletteResolution_ch) is None,
        resolved_before(gs, palette, f, row, column) ==> r == Err::<(ImageData, Vec<Quad>), Error>(
            Error::PaletteResolution {
                ch: cell(gs, f, row, column),
                frame: (f + 1) as usize,
                row: row as usize,
                column: column as usize,
            },
        ),
{
    if r is Ok {
        assert(resolves(gs, palette));
        assert(cell_color(palette, cell(gs, f, row, column)) is Some);
    }
    let e = r->Err_0;
    assert(reports_first_unresolved(gs, palette, e));
    if resolved_before(gs, palette, f, row, column) {
        let ef = e->PaletteResolution_frame - 1;
        let er = e->PaletteResolution_row as int;
        let ec = e->PaletteResolution_column as int;
        assert(cell_color(palette, cell(gs, ef, er, ec)) is None);
        assert(ef == f && er == row && ec == column);
    }
}

/// Rasterization is a function of the grids, the palette and the layout:
/// two results for the same three are the same error, or images of the
/// same size with the same bytes and the same rectangles.
pub proof fn lemma_rasterization_is_deterministic(
    gs: Seq<Seq<Seq<u8>>>,
    palette: Map<u8, Color>,
    layout: Layout,
    r1: Result<(ImageData, Vec<Quad>), Error>,
    r2: Result<(ImageData, Vec<Quad>), Error>,
)
    requires
        rasterizes(gs, palette, layout, r1),
        rasterizes(gs, palette, layout, r2),
    ensures
        match (r1, r2) {
            (Ok((image1, quads1)), Ok((image2, quads2))) => {
                &&& image1.width == image2.width
                &&& image1.height == image2.height
                &&& image1.data@ == image2.data@
                &&& quads1@ == quads2@
            },
            (Err(e1), Err(e2)) => e1 == e2,
            _ => false,
        },
{
    match (r1, r2) {
        (Err(e1), Err(e2)) => {
            let f1 = e1->PaletteResolution_frame - 1;
            let f2 = e2->PaletteResolution_frame - 1;
            let a1 = e1->PaletteResolution_row as int;
            let a2 = e2->PaletteResolution_row as int;
            let c1 = e1->PaletteResolution_column as int;
            let c2 = e2->PaletteResolution_column as int;
            assert(cell_color(palette, cell(gs, f1, a1, c1)) is None);
            assert(cell_color(palette, cell(gs, f2, a2, c2)) is None);
            assert(f1 == f2 && a1 == a2 && c1 == c2);
        },
        (Err(e), Ok(_)) => {
            let f = e->PaletteResolution_frame - 1;
            assert(cell_color(
                palette,
                cell(gs, f, e->PaletteResolution_row as int, e->PaletteResolution_column as int),
            ) is None);
        },
        (Ok(_), Err(e)) => {
            let f = e->PaletteResolution_frame - 1;
            assert(cell_color(
                palette,
                cell(gs, f, e->PaletteResolution_row as int, e->PaletteResolution_column as int),
            ) is None);
        },
        _ => {},
    }
}

/// What a document compiles to depends on its statements alone: two texts
/// with the same statements give the same error, or sheets with the same
/// animations, image and rectangles.
pub proof fn lemma_same_statements_same_sheet(
    s1: Seq<u8>,
    s2: Seq<u8>,
    r1: Result<Dirt, Error>,
    r2: Result<Dirt, Error>,
)
    requires
        spec_all(s1) == spec_all(s2),
        compiles(s1, r1),
        compiles(s2, r2),
    ensures
        match (r1, r2) {
            (Ok(sheet1), Ok(sheet2)) => {
                &&& sheet1.anims@ == sheet2.anims@
                &&& sheet1.image_data.width == sheet2.image_data.width
                &&& sheet1.image_data.height == sheet2.image_data.height
                &&& sheet1.image_data.data@ == sheet2.image_data.data@
                &&& sheet1.framelist@ == sheet2.framelist@
            },
            (Err(e1), Err(e2)) => e1 == e2,
            _ => false,
        },
{
    if let Ok(statements) = spec_all(s1) {
        if let Ok(a) = assembled(statements) {
            let q1: Result<(ImageData, Vec<Quad>), Error> = match r1 {
                Ok(sheet) => Ok((sheet.image_data, sheet.framelist)),
                Err(e) => Err(e),
            };
            let q2: Result<(ImageData, Vec<Quad>), Error> = match r2 {
                Ok(sheet) => Ok((sheet.image_data, sheet.framelist)),
                Err(e) => Err(e),
            };
            lemma_rasterization_is_deterministic(a.frames, a.palette, Layout::Horizontal, q1, q2);
        }
    }
}

/// Writing the statements of a document out in canonical form and
/// reading that text gives the same statements again.
pub proof fn lemma_canonical_round_trip(source: Seq<u8>)
    requires
        spec_all(source) is Ok,
    ensures
        spec_all(canonical(spec_all(source).unwrap())) == spec_all(source),
{
    lemma_parsed_is_printable(source);
    lemma_canonical_text_reads_back(spec_all(source).unwrap());
}

/// A document and the canonical text of its statements compile to the
/// same thing: the same error, or sheets with the same animations, image
/// and rectangles.
pub proof fn lemma_canonical_text_compiles_alike(
    source: Seq<u8>,
    r1: Result<Dirt, Error>,
    r2: Result<Dirt, Error>,
)
    requires
        spec_all(source) is Ok,
        compiles(source, r1),
        compiles(canonical(spec_all(source).unwrap()), r2),
    ensures
        match (r1, r2) {
            (Ok(sheet1), Ok(sheet2)) => {
                &&& sheet1.anims@ == sheet2.anims@
                &&& sheet1.image_data.width == sheet2.image_data.width
                &&& sheet1.image_data.height == sheet2.image_data.height
                &&& sheet1.image_data.data@ == sheet2.image_data.data@
                &&& sheet1.framelist@ == sheet2.framelist@
            },
            (Err(e1), Err(e2)) => e1 == e2,
            _ => false,
        },
{
    lemma_canonical_round_trip(source);
    lemma_same_statements_same_sheet(source, canonical(spec_all(source).unwrap()), r1, r2);
}

} // verus!
