//! The statement grammar.
//!
//! ```text
//! document      := blank* (statement blank*)*
//! statement     := comment | anim | palette_entry | frame
//! comment       := '#' (not newline)*
//! anim          := '[' label ']' ' '? number ('->' | '<->') number
//! palette_entry := alnum ':' ' '? hex6
//! frame         := number newline sep newline row ('\n' row)* newline sep
//! ```
//!
//! Alternatives are tried in the order written and the first that matches
//! wins; every repetition is greedy.
use vstd::prelude::*;
use crate::color::Color;
use crate::error::Error;
use crate::lex::{
    at, blank, hex6, is_alnum, label, line, matches_at, num, peek, pixels, run_end, scan, sep,
    space, spec_blank, spec_hex6, spec_label, spec_line, spec_num, spec_pixels, spec_sep,
    spec_space, word_matches, ByteClass,
};

verus! {

/// An inclusive range of frame indices that makes up one animation.
#[derive(Debug, Clone, Copy, PartialEq, Eq, Structural)]
pub struct Anim {
    pub start: u32,
    pub end: u32,
}

/// One statement of a document.
#[derive(Debug, Clone, PartialEq, Eq)]
pub enum Statement {
    Comment,
    /// A named animation range.
    Anim(Vec<u8>, Anim),
    /// A palette entry: the key byte and its colour.
    Color(u8, Color),
    /// A frame: its declared index and its rows.
    Frame(u32, Vec<Vec<u8>>),
}

/// The mathematical value of a [`Statement`].
pub enum StatementModel {
    Comment,
    Anim(Seq<u8>, Anim),
    Color(u8, Color),
    Frame(u32, Seq<Seq<u8>>),
}

/// The rows of a frame as sequences of bytes.
pub open spec fn grid(rows: Seq<Vec<u8>>) -> Seq<Seq<u8>> {
    Seq::new(rows.len(), |i: int| rows[i]@)
}

impl View for Statement {
    type V = StatementModel;

    open spec fn view(&self) -> StatementModel {
        match *self {
            Statement::Comment => StatementModel::Comment,
            Statement::Anim(name, anim) => StatementModel::Anim(name@, anim),
            Statement::Color(key, color) => StatementModel::Color(key, color),
            Statement::Frame(index, rows) => StatementModel::Frame(index, grid(rows@)),
        }
    }
}

/// The values of a list of statements, in order.
pub open spec fn models(statements: Seq<Statement>) -> Seq<StatementModel> {
    Seq::new(statements.len(), |i: int| statements[i]@)
}

/// Whether an executable statement result is the one that the grammar gives.
pub open spec fn statement_matches(
    r: Option<(Statement, usize)>,
    m: Option<(StatementModel, int)>,
) -> bool {
    match (r, m) {
        (Some((st, e)), Some((ms, me))) => st@ == ms && e == me,
        (None, None) => true,
        _ => false,
    }
}

/// `'[' label ']'`
pub open spec fn spec_title(s: Seq<u8>, pos: int) -> Option<(Seq<u8>, int)> {
    if at(s, pos, 0x5b) {
        match spec_label(s, pos + 1) {
            Some((name, end)) => if at(s, end, 0x5d) {
                Some((name, end + 1))
            } else {
                None
            },
            None => None,
        }
    } else {
        None
    }
}

/// Reads an animation name in brackets at `pos`.
pub fn title(input: &[u8], pos: usize) -> (r: Option<(Vec<u8>, usize)>)
    requires
        pos <= input.len(),
    ensures
        word_matches(r, spec_title(input@, pos as int)),
        r.is_some() ==> pos < r.unwrap().1 <= input.len(),
{
    if !peek(input, pos, 0x5b) {
        return None;
    }
    match label(input, pos + 1) {
        Some((name, end)) => {
            if peek(input, end, 0x5d) {
                Some((name, end + 1))
            } else {
                None
            }
        },
        None => None,
    }
}

/// The arrow between the two ends of a range: `->` or `<->`, which mean the same.
pub open spec fn spec_arrow(s: Seq<u8>, pos: int) -> Option<int> {
    if at(s, pos, 0x2d) && at(s, pos + 1, 0x3e) {
        Some(pos + 2)
    } else if at(s, pos, 0x3c) && at(s, pos + 1, 0x2d) && at(s, pos + 2, 0x3e) {
        Some(pos + 3)
    } else {
        None
    }
}

/// Reads `->` or `<->` at `pos`.
pub fn arrow(input: &[u8], pos: usize) -> (r: Option<usize>)
    requires
        pos <= input.len(),
    ensures
        r.is_some() == spec_arrow(input@, pos as int).is_some(),
        r.is_some() ==> r.unwrap() == spec_arrow(input@, pos as int).unwrap() && r.unwrap()
            <= input.len(),
{
    if peek(input, pos, 0x2d) {
        if peek(input, pos + 1, 0x3e) {
            Some(pos + 2)
        } else {
            None
        }
    } else if peek(input, pos, 0x3c) && peek(input, pos + 1, 0x2d) && peek(input, pos + 2, 0x3e) {
        Some(pos + 3)
    } else {
        None
    }
}

/// `number arrow number`
pub open spec fn spec_span(s: Seq<u8>, pos: int) -> Option<(Anim, int)> {
    match spec_num(s, pos) {
        Some((start, stop1)) => match spec_arrow(s, stop1) {
            Some(stop2) => match spec_num(s, stop2) {
                Some((end, stop3)) => Some((Anim { start, end }, stop3)),
                None => None,
            },
            None => None,
        },
        None => None,
    }
}

/// Reads the two ends of an animation range at `pos`.
pub fn span(input: &[u8], pos: usize) -> (r: Option<(Anim, usize)>)
    requires
        pos <= input.len(),
    ensures
        matches_at(r, spec_span(input@, pos as int)),
        r.is_some() ==> pos < r.unwrap().1 <= input.len(),
{
    let (start, stop1) = match num(input, pos) {
        Some(found) => found,
        None => { return None; },
    };
    let stop2 = match arrow(input, stop1) {
        Some(found) => found,
        None => { return None; },
    };
    match num(input, stop2) {
        Some((end, stop3)) => Some((Anim { start, end }, stop3)),
        None => None,
    }
}

/// `'#' (not newline)*`
pub open spec fn spec_comment(s: Seq<u8>, pos: int) -> Option<(StatementModel, int)> {
    if at(s, pos, 0x23) {
        Some((StatementModel::Comment, run_end(s, pos + 1, ByteClass::Inline)))
    } else {
        None
    }
}

/// Reads a comment at `pos`, up to the end of its line.
pub fn comment(input: &[u8], pos: usize) -> (r: Option<(Statement, usize)>)
    requires
        pos <= input.len(),
    ensures
        statement_matches(r, spec_comment(input@, pos as int)),
        r.is_some() ==> pos < r.unwrap().1 <= input.len(),
{
    if peek(input, pos, 0x23) {
        Some((Statement::Comment, scan(input, pos + 1, ByteClass::Inline)))
    } else {
        None
    }
}

/// `title ' '? span`
pub open spec fn spec_anim(s: Seq<u8>, pos: int) -> Option<(StatementModel, int)> {
    match spec_title(s, pos) {
        Some((name, stop1)) => match spec_span(s, spec_space(s, stop1)) {
            Some((range, stop2)) => Some((StatementModel::Anim(name, range), stop2)),
            None => None,
        },
        None => None,
    }
}

/// Reads an animation declaration at `pos`.
pub fn anim(input: &[u8], pos: usize) -> (r: Option<(Statement, usize)>)
    requires
        pos <= input.len(),
    ensures
        statement_matches(r, spec_anim(input@, pos as int)),
        r.is_some() ==> pos < r.unwrap().1 <= input.len(),
{
    let (name, stop1) = match title(input, pos) {
        Some(found) => found,
        None => { return None; },
    };
    match span(input, space(input, stop1)) {
        Some((range, stop2)) => Some((Statement::Anim(name, range), stop2)),
        None => None,
    }
}

/// `alnum ':' ' '? hex6`, the colour fully opaque.
pub open spec fn spec_color(s: Seq<u8>, pos: int) -> Option<(StatementModel, int)> {
    if 0 <= pos < s.len() && is_alnum(s[pos]) && at(s, pos + 1, 0x3a) {
        match spec_hex6(s, spec_space(s, pos + 2)) {
            Some((hex, end)) => Some(
                (StatementModel::Color(s[pos], Color::spec_from_hex(hex, 255)), end),
            ),
            None => None,
        }
    } else {
        None
    }
}

/// Reads a palette entry at `pos`.
pub fn color(input: &[u8], pos: usize) -> (r: Option<(Statement, usize)>)
    requires
        pos <= input.len(),
    ensures
        statement_matches(r, spec_color(input@, pos as int)),
        r.is_some() ==> pos < r.unwrap().1 <= input.len(),
{
    if pos >= input.len() || !ByteClass::Alnum.contains(input[pos]) {
        return None;
    }
    if !peek(input, pos + 1, 0x3a) {
        return None;
    }
    match hex6(input, space(input, pos + 2)) {
        Some((hex, end)) => Some((Statement::Color(input[pos], Color::from_hex(hex, 255)), end)),
        None => None,
    }
}

/// The rows that follow a row which ended at `pos`: each a line feed and a
/// row, for as long as both are there.
pub open spec fn spec_more_rows(s: Seq<u8>, pos: int) -> (Seq<Seq<u8>>, int)
    decreases s.len() - pos,
{
    if at(s, pos, 0x0a) {
        match spec_pixels(s, pos + 1) {
            Some((row, end)) => if pos < end <= s.len() {
                let (rest, last) = spec_more_rows(s, end);
                (seq![row] + rest, last)
            } else {
                (Seq::empty(), pos)
            },
            None => (Seq::empty(), pos),
        }
    } else {
        (Seq::empty(), pos)
    }
}

/// One or more rows, a line feed between each two.
pub open spec fn spec_rows(s: Seq<u8>, pos: int) -> Option<(Seq<Seq<u8>>, int)> {
    match spec_pixels(s, pos) {
        Some((row, end)) => {
            let (rest, last) = spec_more_rows(s, end);
            Some((seq![row] + rest, last))
        },
        None => None,
    }
}

/// Reads the rows of a frame at `pos`: at least one, with a line feed
/// between each two.
pub fn rows(input: &[u8], pos: usize) -> (r: Option<(Vec<Vec<u8>>, usize)>)
    requires
        pos <= input.len(),
    ensures
        r.is_some() == spec_rows(input@, pos as int).is_some(),
        r.is_some() ==> {
            &&& grid(r.unwrap().0@) == spec_rows(input@, pos as int).unwrap().0
            &&& r.unwrap().1 == spec_rows(input@, pos as int).unwrap().1
            &&& pos < r.unwrap().1 <= input.len()
        },
{
    let (first, first_end) = match pixels(input, pos) {
        Some(found) => found,
        None => { return None; },
    };
    let ghost want = spec_rows(input@, pos as int).unwrap();
    let mut out: Vec<Vec<u8>> = Vec::new();
    out.push(first);
    let mut cur: usize = first_end;
    assert(grid(out@) =~= seq![first@]);
    loop
        invariant
            pos < cur <= input.len(),
            want.0 == grid(out@) + spec_more_rows(input@, cur as int).0,
            want.1 == spec_more_rows(input@, cur as int).1,
        ensures
            want.0 == grid(out@),
            want.1 == cur,
        decreases input.len() - cur,
    {
        if !peek(input, cur, 0x0a) {
            assert(grid(out@) + Seq::<Seq<u8>>::empty() =~= grid(out@));
            break;
        }
        match pixels(input, cur + 1) {
            Some((row, end)) => {
                proof {
                    let rest = spec_more_rows(input@, end as int).0;
                    assert(grid(out@.push(row)) =~= grid(out@) + seq![row@]);
                    assert((grid(out@) + seq![row@]) + rest =~= grid(out@) + (seq![row@] + rest));
                }
                out.push(row);
                cur = end;
            },
            None => {
                assert(grid(out@) + Seq::<Seq<u8>>::empty() =~= grid(out@));
                break;
            },
        }
    }
    Some((out, cur))
}

/// `number newline sep newline rows newline sep`
pub open spec fn spec_frame(s: Seq<u8>, pos: int) -> Option<(StatementModel, int)> {
    match spec_num(s, pos) {
        Some((index, stop1)) => match spec_line(s, stop1) {
            Some(stop2) => match spec_sep(s, stop2) {
                Some(stop3) => match spec_line(s, stop3) {
                    Some(stop4) => match spec_rows(s, stop4) {
                        Some((rows, stop5)) => match spec_line(s, stop5) {
                            Some(stop6) => match spec_sep(s, stop6) {
                                Some(stop7) => Some((StatementModel::Frame(index, rows), stop7)),
                                None => None,
                            },
                            None => None,
                        },
                        None => None,
                    },
                    None => None,
                },
                None => None,
            },
            None => None,
        },
        None => None,
    }
}

/// Reads a frame block at `pos`.
pub fn frame(input: &[u8], pos: usize) -> (r: Option<(Statement, usize)>)
    requires
        pos <= input.len(),
    ensures
        statement_matches(r, spec_frame(input@, pos as int)),
        r.is_some() ==> pos < r.unwrap().1 <= input.len(),
{
    let (index, stop1) = match num(input, pos) {
        Some(found) => found,
        None => { return None; },
    };
    let stop2 = match line(input, stop1) {
        Some(found) => found,
        None => { return None; },
    };
    let stop3 = match sep(input, stop2) {
        Some(found) => found,
        None => { return None; },
    };
    let stop4 = match line(input, stop3) {
        Some(found) => found,
        None => { return None; },
    };
    let (grid_rows, stop5) = match rows(input, stop4) {
        Some(found) => found,
        None => { return None; },
    };
    let stop6 = match line(input, stop5) {
        Some(found) => found,
        None => { return None; },
    };
    match sep(input, stop6) {
        Some(stop7) => Some((Statement::Frame(index, grid_rows), stop7)),
        None => None,
    }
}

/// The first of comment, animation, palette entry and frame that matches.
pub open spec fn spec_statement(s: Seq<u8>, pos: int) -> Option<(StatementModel, int)> {
    if spec_comment(s, pos).is_some() {
        spec_comment(s, pos)
    } else if spec_anim(s, pos).is_some() {
        spec_anim(s, pos)
    } else if spec_color(s, pos).is_some() {
        spec_color(s, pos)
    } else {
        spec_frame(s, pos)
    }
}

/// Reads one statement at `pos`, trying comment, animation, palette entry
/// and frame in this order.
pub fn statement(input: &[u8], pos: usize) -> (r: Option<(Statement, usize)>)
    requires
        pos <= input.len(),
    ensures
        statement_matches(r, spec_statement(input@, pos as int)),
        r.is_some() ==> pos < r.unwrap().1 <= input.len(),
{
    let found = comment(input, pos);
    if found.is_some() {
        return found;
    }
    let found = anim(input, pos);
    if found.is_some() {
        return found;
    }
    let found = color(input, pos);
    if found.is_some() {
        return found;
    }
    frame(input, pos)
}

/// The statements from `pos` on, each after a possibly empty run of
/// blanks, up to the first place where no statement starts; and the end of
/// the last of them.
pub open spec fn spec_statements(s: Seq<u8>, pos: int) -> (Seq<StatementModel>, int)
    decreases s.len() - pos,
{
    match spec_statement(s, spec_blank(s, pos)) {
        Some((st, end)) => if pos < end <= s.len() {
            let (rest, last) = spec_statements(s, end);
            (seq![st] + rest, last)
        } else {
            (Seq::empty(), pos)
        },
        None => (Seq::empty(), pos),
    }
}

/// Where the statements of `s` and the blanks after them end.
pub open spec fn document_end(s: Seq<u8>) -> int {
    spec_blank(s, spec_statements(s, 0).1)
}

/// The statements of a whole document, or the position at which the input
/// stops being one.
pub open spec fn spec_all(s: Seq<u8>) -> Result<Seq<StatementModel>, Error> {
    if document_end(s) == s.len() {
        Ok(spec_statements(s, 0).0)
    } else {
        Err(Error::Grammar { position: document_end(s) as usize })
    }
}

/// Parses a whole document into its statements, top to bottom.
///
/// Fails with [`Error::Grammar`] when something is left over that is
/// neither blank nor a statement; the position is that of the first such
/// byte.
pub fn all(input: &[u8]) -> (r: Result<Vec<Statement>, Error>)
    ensures
        match r {
            Ok(statements) => spec_all(input@) == Ok::<Seq<StatementModel>, Error>(
                models(statements@),
            ),
            Err(e) => spec_all(input@) == Err::<Seq<StatementModel>, Error>(e),
        },
{
    let ghost want = spec_statements(input@, 0);
    let mut out: Vec<Statement> = Vec::new();
    let mut cur: usize = 0;
    assert(models(out@) =~= Seq::empty());
    loop
        invariant
            cur <= input.len(),
            want.0 == models(out@) + spec_statements(input@, cur as int).0,
            want.1 == spec_statements(input@, cur as int).1,
        ensures
            want.0 == models(out@),
            want.1 == cur,
        decreases input.len() - cur,
    {
        let start = blank(input, cur);
        match statement(input, start) {
            Some((st, end)) => {
                proof {
                    let rest = spec_statements(input@, end as int).0;
                    assert(models(out@.push(st)) =~= models(out@) + seq![st@]);
                    assert((models(out@) + seq![st@]) + rest =~= models(out@) + (seq![st@]
                        + rest));
                }
                out.push(st);
                cur = end;
            },
            None => {
                assert(models(out@) + Seq::<StatementModel>::empty() =~= models(out@));
                break;
            },
        }
    }
    let end = blank(input, cur);
    if end == input.len() {
        Ok(out)
    } else {
        Err(Error::Grammar { position: end })
    }
}

} // verus!
