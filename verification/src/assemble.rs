//! The semantic pass: one walk over the statements that fills the
//! animation table and the palette and collects the frames, and that stops
//! at the first statement that breaks a rule.
use vstd::prelude::*;
use std::collections::HashMap;
use crate::anims::AnimTable;
use crate::color::Color;
use crate::error::Error;
use crate::frames::{same_size, well_shaped, CharFrame, CharFramelist};
use crate::grammar::{grid, models, Anim, Statement, StatementModel};

verus! {

/// What the statements read so far amount to.
pub struct Assembly {
    pub anims: Map<Seq<u8>, Anim>,
    pub palette: Map<u8, Color>,
    pub frames: Seq<Seq<Seq<u8>>>,
}

/// Nothing read yet.
pub open spec fn nothing() -> Assembly {
    Assembly { anims: Map::empty(), palette: Map::empty(), frames: Seq::empty() }
}

/// The effect of one statement.
///
/// A comment changes nothing. An animation or a palette entry replaces
/// what was stored under its key. A frame must carry the index that
/// follows the number of frames so far, be a well shaped grid, and have
/// the size of the frame before it; then it is appended.
pub open spec fn step(a: Assembly, st: StatementModel) -> Result<Assembly, Error> {
    match st {
        StatementModel::Comment => Ok(a),
        StatementModel::Anim(name, range) => Ok(
            Assembly { anims: a.anims.insert(name, range), ..a },
        ),
        StatementModel::Color(key, color) => Ok(
            Assembly { palette: a.palette.insert(key, color), ..a },
        ),
        StatementModel::Frame(index, rows) => {
            if index != a.frames.len() + 1 {
                Err(Error::FrameOrder { expected: (a.frames.len() + 1) as usize, actual: index })
            } else if !well_shaped(rows) {
                Err(Error::Dimension)
            } else if a.frames.len() > 0 && !same_size(rows, a.frames.last()) {
                Err(Error::Dimension)
            } else {
                Ok(Assembly { frames: a.frames.push(rows), ..a })
            }
        },
    }
}

/// The effect of a list of statements, read from left to right up to the
/// first failure.
pub open spec fn assembled(statements: Seq<StatementModel>) -> Result<Assembly, Error>
    decreases statements.len(),
{
    if statements.len() == 0 {
        Ok(nothing())
    } else {
        match assembled(statements.drop_last()) {
            Ok(a) => step(a, statements.last()),
            Err(e) => Err(e),
        }
    }
}

fn copy_bytes(src: &Vec<u8>) -> (out: Vec<u8>)
    ensures
        out@ == src@,
{
    let mut out: Vec<u8> = Vec::new();
    let mut i: usize = 0;
    while i < src.len()
        invariant
            i <= src@.len(),
            out@ == src@.take(i as int),
        decreases src@.len() - i,
    {
        out.push(src[i]);
        i += 1;
        assert(out@ =~= src@.take(i as int));
    }
    assert(src@.take(src@.len() as int) =~= src@);
    out
}

fn copy_grid(src: &Vec<Vec<u8>>) -> (out: Vec<Vec<u8>>)
    ensures
        grid(out@) == grid(src@),
{
    let mut out: Vec<Vec<u8>> = Vec::new();
    let mut i: usize = 0;
    while i < src.len()
        invariant
            i <= src@.len(),
            out@.len() == i,
            forall|k: int| 0 <= k < i ==> (#[trigger] out@[k])@ == src@[k]@,
        decreases src@.len() - i,
    {
        out.push(copy_bytes(&src[i]));
        i += 1;
    }
    assert(grid(out@) =~= grid(src@));
    out
}

/// Whether an executable result of assembly is the one that the rules give.
pub open spec fn assembly_matches(
    r: Result<(AnimTable, CharFramelist), Error>,
    m: Result<Assembly, Error>,
) -> bool {
    match (r, m) {
        (Ok((anims, list)), Ok(a)) => {
            &&& anims.wf()
            &&& list.wf()
            &&& anims@ == a.anims
            &&& list.palette@ == a.palette
            &&& list.grids() == a.frames
        },
        (Err(e), Err(me)) => e == me,
        _ => false,
    }
}

/// Builds the animation table, the palette and the frame list of a
/// document from its statements, or reports the first statement that breaks
/// a rule.
pub fn assemble(statements: &Vec<Statement>) -> (r: Result<(AnimTable, CharFramelist), Error>)
    ensures
        assembly_matches(r, assembled(models(statements@))),
{
    broadcast use vstd::std_specs::hash::group_hash_axioms;

    let ghost all = models(statements@);
    let mut anims = AnimTable::new();
    let mut list = CharFramelist::new(HashMap::new());
    let mut i: usize = 0;
    assert(all.take(0) =~= Seq::empty());
    assert(list.grids() =~= Seq::empty());
    while i < statements.len()
        invariant
            i <= statements@.len(),
            all == models(statements@),
            anims.wf(),
            list.wf(),
            list.frames@.len() <= i,
            assembled(all.take(i as int)) == Ok::<Assembly, Error>(
                Assembly { anims: anims@, palette: list.palette@, frames: list.grids() },
            ),
        decreases statements@.len() - i,
    {
        let ghost before = Assembly { anims: anims@, palette: list.palette@, frames: list.grids() };
        proof {
            assert(all.take(i + 1).drop_last() =~= all.take(i as int));
            assert(all.take(i + 1).last() == statements@[i as int]@);
        }
        let ghost after = step(before, statements@[i as int]@);
        match &statements[i] {
            Statement::Comment => {},
            Statement::Anim(name, range) => {
                anims.insert(copy_bytes(name), *range);
            },
            Statement::Color(key, color) => {
                list.palette.insert(*key, *color);
            },
            Statement::Frame(index, rows) => {
                let expected: usize = list.frames.len() + 1;
                if *index as usize != expected {
                    proof {
                        lemma_failure_stays(all, i + 1);
                    }
                    return Err(Error::FrameOrder { expected, actual: *index });
                }
                let frame = match CharFrame::new(copy_grid(rows)) {
                    Ok(frame) => frame,
                    Err(e) => {
                        proof {
                            lemma_failure_stays(all, i + 1);
                        }
                        return Err(e);
                    },
                };
                let ghost old_grids = list.grids();
                match list.add(frame) {
                    Ok(_) => {
                        assert(list.grids() =~= old_grids.push(frame@));
                    },
                    Err(e) => {
                        proof {
                            lemma_failure_stays(all, i + 1);
                        }
                        return Err(e);
                    },
                }
            },
        }
        i += 1;
    }
    assert(all.take(i as int) =~= all);
    Ok((anims, list))
}

/// Once a prefix of the statements has failed, the whole list fails in the
/// same way.
pub proof fn lemma_failure_stays(statements: Seq<StatementModel>, n: int)
    requires
        0 <= n <= statements.len(),
        assembled(statements.take(n)) is Err,
    ensures
        assembled(statements) == assembled(statements.take(n)),
    decreases statements.len() - n,
{
    if n == statements.len() {
        assert(statements.take(n) =~= statements);
    } else {
        assert(statements.take(n + 1).drop_last() =~= statements.take(n));
        lemma_failure_stays(statements, n + 1);
    }
}

} // verus!
