//! The canonical text of a list of statements, and the proof that reading
//! it gives the statements back.
use vstd::prelude::*;
use crate::color::Color;
use crate::error::Error;
use crate::grammar::{
    grid, models, spec_all, spec_anim, spec_arrow, spec_color, spec_comment, spec_frame,
    spec_more_rows, spec_rows, spec_span, spec_statement, spec_statements, spec_title, Anim,
    Statement, StatementModel,
};
use crate::lex::{
    at, decimal, hex_digit_value, hex_value, is_alnum, is_digit, is_hex_digit, lemma_run_end,
    run_end, spec_blank, spec_hex6, spec_line, spec_num, spec_pixels, spec_sep, spec_space,
    spec_word, ByteClass,
};

verus! {

/// The decimal digits of `n`, without leading zeros.
pub open spec fn dec(n: nat) -> Seq<u8>
    decreases n,
{
    if n < 10 {
        seq![(0x30 + n) as u8]
    } else {
        dec(n / 10).push((0x30 + n % 10) as u8)
    }
}

/// The lower-case hexadecimal digit of a value below 16.
pub open spec fn hex_digit(v: nat) -> u8 {
    if v < 10 {
        (0x30 + v) as u8
    } else {
        (0x57 + v) as u8
    }
}

/// The six hexadecimal digits of a colour: red, green, blue.
pub open spec fn hex6_text(c: Color) -> Seq<u8> {
    seq![
        hex_digit(c.r as nat / 16),
        hex_digit(c.r as nat % 16),
        hex_digit(c.g as nat / 16),
        hex_digit(c.g as nat % 16),
        hex_digit(c.b as nat / 16),
        hex_digit(c.b as nat % 16),
    ]
}

/// Each row followed by a line feed.
pub open spec fn rows_text(rows: Seq<Seq<u8>>) -> Seq<u8>
    decreases rows.len(),
{
    if rows.len() == 0 {
        Seq::empty()
    } else {
        rows[0] + (seq![0x0au8] + rows_text(rows.drop_first()))
    }
}

/// A separator line of four `=` and its line feed.
pub open spec fn rule_text() -> Seq<u8> {
    seq![0x3du8, 0x3du8, 0x3du8, 0x3du8, 0x0au8]
}

/// The canonical line or block of one statement, its line feed included.
pub open spec fn text(st: StatementModel) -> Seq<u8> {
    match st {
        StatementModel::Comment => seq![0x23u8, 0x0au8],
        StatementModel::Anim(name, range) => seq![0x5bu8] + (name + (seq![0x5du8, 0x20u8] + (dec(
            range.start as nat,
        ) + (seq![0x2du8, 0x3eu8] + (dec(range.end as nat) + seq![0x0au8]))))),
        StatementModel::Color(key, c) => seq![key, 0x3au8, 0x20u8] + (hex6_text(c) + seq![0x0au8]),
        StatementModel::Frame(index, rows) => dec(index as nat) + (seq![0x0au8] + (rule_text() + (
        rows_text(rows) + rule_text()))),
    }
}

/// The canonical text of a list of statements: their texts in order.
pub open spec fn canonical(statements: Seq<StatementModel>) -> Seq<u8>
    decreases statements.len(),
{
    if statements.len() == 0 {
        Seq::empty()
    } else {
        text(statements[0]) + canonical(statements.drop_first())
    }
}

/// A row that the grammar can read: not empty, of alphanumeric bytes and `.`.
pub open spec fn is_row(row: Seq<u8>) -> bool {
    row.len() > 0 && forall|i: int| 0 <= i < row.len() ==> ByteClass::Pixel.has(#[trigger] row[i])
}

/// A statement that the grammar can produce.
pub open spec fn printable(st: StatementModel) -> bool {
    match st {
        StatementModel::Comment => true,
        StatementModel::Anim(name, _) => name.len() > 0 && forall|i: int|
            0 <= i < name.len() ==> is_alnum(#[trigger] name[i]),
        StatementModel::Color(key, c) => is_alnum(key) && c.a == 255,
        StatementModel::Frame(_, rows) => rows.len() > 0 && forall|r: int|
            0 <= r < rows.len() ==> is_row(#[trigger] rows[r]),
    }
}

/// `t` stands in `s` at `pos`.
pub open spec fn has(s: Seq<u8>, pos: int, t: Seq<u8>) -> bool {
    &&& 0 <= pos
    &&& pos + t.len() <= s.len()
    &&& forall|i: int| 0 <= i < t.len() ==> s[pos + i] == #[trigger] t[i]
}

proof fn lemma_has_split(s: Seq<u8>, pos: int, a: Seq<u8>, b: Seq<u8>)
    requires
        has(s, pos, a + b),
    ensures
        has(s, pos, a),
        has(s, pos + a.len(), b),
{
    assert forall|i: int| 0 <= i < a.len() implies s[pos + i] == #[trigger] a[i] by {
        assert((a + b)[i] == a[i]);
    }
    assert forall|i: int| 0 <= i < b.len() implies s[pos + a.len() + i] == #[trigger] b[i] by {
        assert((a + b)[a.len() + i] == b[i]);
    }
}

proof fn lemma_run_exact(s: Seq<u8>, pos: int, end: int, class: ByteClass)
    requires
        0 <= pos <= end <= s.len(),
        forall|i: int| pos <= i < end ==> class.has(#[trigger] s[i]),
        end == s.len() || !class.has(s[end]),
    ensures
        run_end(s, pos, class) == end,
    decreases end - pos,
{
    if pos < end {
        lemma_run_exact(s, pos + 1, end, class);
    }
}

/// A word that stands at `pos` and is followed by a byte outside its
/// class, or by nothing, is read whole.
proof fn lemma_word_reads(s: Seq<u8>, pos: int, w: Seq<u8>, class: ByteClass)
    requires
        has(s, pos, w),
        w.len() > 0,
        forall|i: int| 0 <= i < w.len() ==> class.has(#[trigger] w[i]),
        pos + w.len() == s.len() || !class.has(s[pos + w.len()]),
    ensures
        spec_word(s, pos, class) == Some((w, pos + w.len())),
{
    assert forall|i: int| pos <= i < pos + w.len() implies class.has(#[trigger] s[i]) by {
        assert(s[pos + (i - pos)] == w[i - pos]);
    }
    lemma_run_exact(s, pos, pos + w.len(), class);
    assert(s.subrange(pos, pos + w.len()) =~= w);
}

proof fn lemma_dec(n: nat)
    ensures
        dec(n).len() > 0,
        forall|i: int| 0 <= i < dec(n).len() ==> is_digit(#[trigger] dec(n)[i]),
        decimal(dec(n)) == n,
    decreases n,
{
    if n < 10 {
        assert(dec(n).drop_last() =~= Seq::<u8>::empty());
        assert(decimal(dec(n).drop_last()) == 0);
    } else {
        lemma_dec(n / 10);
        assert(dec(n).drop_last() =~= dec(n / 10));
    }
}

/// The digits of a number that stand at `pos`, followed by something that
/// is no digit, are read as that number.
proof fn lemma_num_reads(s: Seq<u8>, pos: int, n: u32)
    requires
        has(s, pos, dec(n as nat)),
        pos + dec(n as nat).len() == s.len() || !is_digit(s[pos + dec(n as nat).len()]),
    ensures
        spec_num(s, pos) == Some((n, pos + dec(n as nat).len())),
{
    lemma_dec(n as nat);
    lemma_word_reads(s, pos, dec(n as nat), ByteClass::Digit);
}

proof fn lemma_hex6_value(t: Seq<u8>)
    requires
        t.len() == 6,
    ensures
        hex_value(t) == ((((hex_digit_value(t[0]) * 16 + hex_digit_value(t[1])) * 16
            + hex_digit_value(t[2])) * 16 + hex_digit_value(t[3])) * 16 + hex_digit_value(t[4]))
            * 16 + hex_digit_value(t[5]),
{
    let t5 = t.drop_last();
    let t4 = t5.drop_last();
    let t3 = t4.drop_last();
    let t2 = t3.drop_last();
    let t1 = t2.drop_last();
    let t0 = t1.drop_last();
    assert(hex_value(t0) == 0);
    assert(hex_value(t1) == hex_value(t0) * 16 + hex_digit_value(t1.last()));
    assert(hex_value(t2) == hex_value(t1) * 16 + hex_digit_value(t2.last()));
    assert(hex_value(t3) == hex_value(t2) * 16 + hex_digit_value(t3.last()));
    assert(hex_value(t4) == hex_value(t3) * 16 + hex_digit_value(t4.last()));
    assert(hex_value(t5) == hex_value(t4) * 16 + hex_digit_value(t5.last()));
    assert(hex_value(t) == hex_value(t5) * 16 + hex_digit_value(t.last()));
}

proof fn lemma_hex_digit(v: nat)
    requires
        v < 16,
    ensures
        is_hex_digit(hex_digit(v)),
        hex_digit_value(hex_digit(v)) == v,
{
}

proof fn lemma_channels(r: u8, g: u8, b: u8)
    ensures
        r * 0x1_0000 + g * 0x100 + b <= u32::MAX,
        Color::spec_from_hex((r * 0x1_0000 + g * 0x100 + b) as u32, 255) == (Color {
            r,
            g,
            b,
            a: 255,
        }),
{
    let v = r * 0x1_0000 + g * 0x100 + b;
    assert(v / 0x1_0000 == r as int);
    assert((v / 0x100) % 0x100 == g as int);
    assert(v % 0x100 == b as int);
}

proof fn lemma_hex6_text_value(c: Color)
    ensures
        hex_value(hex6_text(c)) == c.r * 0x1_0000 + c.g * 0x100 + c.b,
        forall|i: int| 0 <= i < 6 ==> is_hex_digit(#[trigger] hex6_text(c)[i]),
{
    let t = hex6_text(c);
    lemma_hex6_value(t);
    let r = c.r as nat;
    let g = c.g as nat;
    let b = c.b as nat;
    lemma_hex_digit(r / 16);
    lemma_hex_digit(r % 16);
    lemma_hex_digit(g / 16);
    lemma_hex_digit(g % 16);
    lemma_hex_digit(b / 16);
    lemma_hex_digit(b % 16);
    let d0 = hex_digit_value(t[0]);
    let d1 = hex_digit_value(t[1]);
    let d2 = hex_digit_value(t[2]);
    let d3 = hex_digit_value(t[3]);
    let d4 = hex_digit_value(t[4]);
    let d5 = hex_digit_value(t[5]);
    assert(d0 == r / 16 && d1 == r % 16 && d2 == g / 16 && d3 == g % 16 && d4 == b / 16 && d5 == b
        % 16);
    assert(d0 * 16 + d1 == r);
    assert(d2 * 16 + d3 == g);
    assert(d4 * 16 + d5 == b);
    assert(((((d0 * 16 + d1) * 16 + d2) * 16 + d3) * 16 + d4) * 16 + d5 == (d0 * 16 + d1)
        * 0x1_0000 + (d2 * 16 + d3) * 0x100 + (d4 * 16 + d5));
}

/// The six digits of an opaque colour that stand at `pos` are read as
/// that colour.
proof fn lemma_hex6_reads(s: Seq<u8>, pos: int, c: Color)
    requires
        has(s, pos, hex6_text(c)),
        c.a == 255,
    ensures
        spec_hex6(s, pos) is Some,
        spec_hex6(s, pos).unwrap().1 == pos + 6,
        Color::spec_from_hex(spec_hex6(s, pos).unwrap().0, 255) == c,
{
    let t = hex6_text(c);
    assert(s.subrange(pos, pos + 6) =~= t);
    lemma_hex6_text_value(c);
    assert forall|k: int| pos <= k < pos + 6 implies is_hex_digit(#[trigger] s[k]) by {
        assert(s[pos + (k - pos)] == t[k - pos]);
    }
    lemma_channels(c.r, c.g, c.b);
}

/// What reading a statement's text gives: the statement, ending at the
/// line feed that closes the text. The text does not start with a blank.
pub open spec fn reads_back(s: Seq<u8>, pos: int, st: StatementModel) -> bool {
    &&& spec_statement(s, pos) == Some((st, pos + text(st).len() - 1))
    &&& pos < pos + text(st).len() - 1 < s.len()
    &&& s[pos + text(st).len() - 1] == 0x0a
    &&& !ByteClass::Blank.has(s[pos])
}

proof fn lemma_comment_reads(s: Seq<u8>, pos: int)
    requires
        has(s, pos, text(StatementModel::Comment)),
    ensures
        reads_back(s, pos, StatementModel::Comment),
{
    let t = text(StatementModel::Comment);
    assert(s[pos + 0] == t[0] && s[pos + 1] == t[1]);
}

proof fn lemma_anim_reads(s: Seq<u8>, pos: int, name: Seq<u8>, range: Anim)
    requires
        has(s, pos, text(StatementModel::Anim(name, range))),
        printable(StatementModel::Anim(name, range)),
    ensures
        reads_back(s, pos, StatementModel::Anim(name, range)),
{
    let a = dec(range.start as nat);
    let b = dec(range.end as nat);
    let open = seq![0x5bu8];
    let close = seq![0x5du8, 0x20u8];
    let arrow = seq![0x2du8, 0x3eu8];
    let nl = seq![0x0au8];
    lemma_has_split(s, pos, open, name + (close + (a + (arrow + (b + nl)))));
    let stop1 = pos + 1;
    lemma_has_split(s, stop1, name, close + (a + (arrow + (b + nl))));
    let stop2 = stop1 + name.len();
    lemma_has_split(s, stop2, close, a + (arrow + (b + nl)));
    let stop3 = stop2 + 2;
    lemma_has_split(s, stop3, a, arrow + (b + nl));
    let stop4 = stop3 + a.len();
    lemma_has_split(s, stop4, arrow, b + nl);
    let stop5 = stop4 + 2;
    lemma_has_split(s, stop5, b, nl);
    let stop6 = stop5 + b.len();
    assert(s[pos + 0] == open[0]);
    assert(s[stop2 + 0] == close[0] && s[stop2 + 1] == close[1]);
    assert(s[stop4 + 0] == arrow[0] && s[stop4 + 1] == arrow[1]);
    assert(s[stop6 + 0] == nl[0]);
    lemma_word_reads(s, stop1, name, ByteClass::Alnum);
    assert(spec_title(s, pos) == Some((name, stop2 + 1)));
    assert(spec_space(s, stop2 + 1) == stop3);
    lemma_num_reads(s, stop3, range.start);
    assert(spec_arrow(s, stop4) == Some(stop5));
    lemma_num_reads(s, stop5, range.end);
    assert(spec_span(s, stop3) == Some((range, stop6)));
    assert(spec_anim(s, pos) == Some((StatementModel::Anim(name, range), stop6)));
    assert(spec_comment(s, pos) is None);
}

proof fn lemma_color_reads(s: Seq<u8>, pos: int, key: u8, c: Color)
    requires
        has(s, pos, text(StatementModel::Color(key, c))),
        printable(StatementModel::Color(key, c)),
    ensures
        reads_back(s, pos, StatementModel::Color(key, c)),
{
    let head = seq![key, 0x3au8, 0x20u8];
    let nl = seq![0x0au8];
    lemma_has_split(s, pos, head, hex6_text(c) + nl);
    lemma_has_split(s, pos + 3, hex6_text(c), nl);
    assert(s[pos + 0] == head[0] && s[pos + 1] == head[1] && s[pos + 2] == head[2]);
    assert(s[pos + 9 + 0] == nl[0]);
    lemma_hex6_reads(s, pos + 3, c);
    assert(spec_space(s, pos + 2) == pos + 3);
    assert(spec_comment(s, pos) is None);
    assert(spec_title(s, pos) is None);
    assert(spec_anim(s, pos) is None);
    assert(spec_color(s, pos) == Some((StatementModel::Color(key, c), pos + 9)));
}

/// The rows after the one that ended at `end`, each on a line of its
/// own and a separator line behind them, are read whole.
proof fn lemma_more_rows_read(s: Seq<u8>, end: int, rows: Seq<Seq<u8>>)
    requires
        0 <= end < s.len(),
        s[end] == 0x0a,
        has(s, end + 1, rows_text(rows)),
        forall|r: int| 0 <= r < rows.len() ==> is_row(#[trigger] rows[r]),
        end + 1 + rows_text(rows).len() < s.len(),
        s[end + 1 + rows_text(rows).len()] == 0x3d,
    ensures
        spec_more_rows(s, end) == (rows, end + rows_text(rows).len()),
    decreases rows.len(),
{
    if rows.len() == 0 {
        lemma_run_exact(s, end + 1, end + 1, ByteClass::Pixel);
        assert(spec_pixels(s, end + 1) is None);
        assert(rows =~= Seq::<Seq<u8>>::empty());
    } else {
        let row = rows[0];
        let tail = rows.drop_first();
        let nl = seq![0x0au8];
        lemma_has_split(s, end + 1, row, nl + rows_text(tail));
        let e2 = end + 1 + row.len();
        lemma_has_split(s, e2, nl, rows_text(tail));
        assert(s[e2 + 0] == nl[0]);
        lemma_word_reads(s, end + 1, row, ByteClass::Pixel);
        assert forall|r: int| 0 <= r < tail.len() implies is_row(#[trigger] tail[r]) by {
            assert(tail[r] == rows[r + 1]);
        }
        lemma_more_rows_read(s, e2, tail);
        assert(seq![row] + tail =~= rows);
    }
}

proof fn lemma_rows_read(s: Seq<u8>, pos: int, rows: Seq<Seq<u8>>)
    requires
        has(s, pos, rows_text(rows)),
        rows.len() > 0,
        forall|r: int| 0 <= r < rows.len() ==> is_row(#[trigger] rows[r]),
        pos + rows_text(rows).len() < s.len(),
        s[pos + rows_text(rows).len()] == 0x3d,
    ensures
        spec_rows(s, pos) == Some((rows, pos + rows_text(rows).len() - 1)),
        s[pos + rows_text(rows).len() - 1] == 0x0a,
{
    let row = rows[0];
    let tail = rows.drop_first();
    let nl = seq![0x0au8];
    lemma_has_split(s, pos, row, nl + rows_text(tail));
    let e = pos + row.len();
    lemma_has_split(s, e, nl, rows_text(tail));
    assert(s[e + 0] == nl[0]);
    lemma_word_reads(s, pos, row, ByteClass::Pixel);
    assert forall|r: int| 0 <= r < tail.len() implies is_row(#[trigger] tail[r]) by {
        assert(tail[r] == rows[r + 1]);
    }
    lemma_more_rows_read(s, e, tail);
    assert(seq![row] + tail =~= rows);
    lemma_rows_text_ends(tail);
    if tail.len() > 0 {
        let t = rows_text(tail);
        assert(s[e + 1 + (t.len() - 1)] == t[t.len() - 1]);
    }
}

/// The text of one or more rows ends with a line feed.
proof fn lemma_rows_text_ends(rows: Seq<Seq<u8>>)
    ensures
        rows.len() > 0 ==> rows_text(rows).len() > 0 && rows_text(rows).last() == 0x0a,
        rows.len() == 0 ==> rows_text(rows).len() == 0,
    decreases rows.len(),
{
    if rows.len() > 0 {
        lemma_rows_text_ends(rows.drop_first());
    }
}

/// A separator line that stands at `pos` is read up to its line feed.
proof fn lemma_rule_reads(s: Seq<u8>, pos: int)
    requires
        has(s, pos, rule_text()),
    ensures
        spec_sep(s, pos) == Some(pos + 4),
        s[pos] == 0x3d,
        s[pos + 4] == 0x0a,
{
    let t = rule_text();
    assert(s[pos + 0] == t[0] && s[pos + 1] == t[1] && s[pos + 2] == t[2] && s[pos + 3] == t[3]
        && s[pos + 4] == t[4]);
    lemma_run_exact(s, pos, pos + 4, ByteClass::Rule);
}

proof fn lemma_frame_reads(s: Seq<u8>, pos: int, index: u32, rows: Seq<Seq<u8>>)
    requires
        has(s, pos, text(StatementModel::Frame(index, rows))),
        printable(StatementModel::Frame(index, rows)),
    ensures
        reads_back(s, pos, StatementModel::Frame(index, rows)),
{
    let d = dec(index as nat);
    let nl = seq![0x0au8];
    let body = rows_text(rows);
    lemma_dec(index as nat);
    lemma_has_split(s, pos, d, nl + (rule_text() + (body + rule_text())));
    let stop1 = pos + d.len();
    lemma_has_split(s, stop1, nl, rule_text() + (body + rule_text()));
    assert(s[stop1 + 0] == nl[0]);
    let stop2 = stop1 + 1;
    lemma_has_split(s, stop2, rule_text(), body + rule_text());
    let stop4 = stop2 + 5;
    lemma_has_split(s, stop4, body, rule_text());
    let stop6 = stop4 + body.len();
    lemma_rule_reads(s, stop2);
    lemma_rule_reads(s, stop6);
    lemma_num_reads(s, pos, index);
    assert(spec_line(s, stop1) == Some(stop2));
    assert(spec_line(s, stop2 + 4) == Some(stop4));
    lemma_rows_read(s, stop4, rows);
    assert(spec_line(s, stop6 - 1) == Some(stop6));
    assert(spec_frame(s, pos) == Some((StatementModel::Frame(index, rows), stop6 + 4)));
    assert(s[pos + 0] == d[0]);
    assert(spec_comment(s, pos) is None);
    assert(spec_title(s, pos) is None);
    assert(spec_anim(s, pos) is None);
    if d.len() > 1 {
        assert(s[pos + 1] == d[1]);
    }
    assert(!at(s, pos + 1, 0x3a));
    assert(spec_color(s, pos) is None);
}

/// The canonical text of a printable statement is read back as that
/// statement.
proof fn lemma_text_reads(s: Seq<u8>, pos: int, st: StatementModel)
    requires
        has(s, pos, text(st)),
        printable(st),
    ensures
        reads_back(s, pos, st),
{
    match st {
        StatementModel::Comment => lemma_comment_reads(s, pos),
        StatementModel::Anim(name, range) => lemma_anim_reads(s, pos, name, range),
        StatementModel::Color(key, c) => lemma_color_reads(s, pos, key, c),
        StatementModel::Frame(index, rows) => lemma_frame_reads(s, pos, index, rows),
    }
}

/// Nothing starts at the end of the input.
proof fn lemma_nothing_at_end(s: Seq<u8>)
    ensures
        spec_statement(s, s.len() as int) is None,
{
    lemma_run_exact(s, s.len() as int, s.len() as int, ByteClass::Digit);
}

/// The canonical text of printable statements that stands behind a line
/// feed and fills the rest of the input is read back whole.
proof fn lemma_statements_read(s: Seq<u8>, end: int, statements: Seq<StatementModel>)
    requires
        0 <= end < s.len(),
        s[end] == 0x0a,
        has(s, end + 1, canonical(statements)),
        end + 1 + canonical(statements).len() == s.len(),
        forall|i: int| 0 <= i < statements.len() ==> printable(#[trigger] statements[i]),
    ensures
        spec_statements(s, end) == (
            statements,
            if statements.len() == 0 {
                end
            } else {
                s.len() - 1
            },
        ),
        s[s.len() - 1] == 0x0a,
    decreases statements.len(),
{
    if statements.len() == 0 {
        lemma_run_exact(s, end, end + 1, ByteClass::Blank);
        lemma_nothing_at_end(s);
        assert(statements =~= Seq::<StatementModel>::empty());
    } else {
        let st = statements[0];
        let tail = statements.drop_first();
        lemma_has_split(s, end + 1, text(st), canonical(tail));
        lemma_text_reads(s, end + 1, st);
        lemma_run_exact(s, end, end + 1, ByteClass::Blank);
        let e2 = end + text(st).len();
        assert forall|i: int| 0 <= i < tail.len() implies printable(#[trigger] tail[i]) by {
            assert(tail[i] == statements[i + 1]);
        }
        lemma_statements_read(s, e2, tail);
        assert(seq![st] + tail =~= statements);
    }
}

/// The canonical text of printable statements that fills the whole input
/// is read back whole.
proof fn lemma_whole_input_reads(s: Seq<u8>, statements: Seq<StatementModel>)
    requires
        has(s, 0, canonical(statements)),
        canonical(statements).len() == s.len(),
        forall|i: int| 0 <= i < statements.len() ==> printable(#[trigger] statements[i]),
    ensures
        spec_statements(s, 0) == (
            statements,
            if statements.len() == 0 {
                0
            } else {
                s.len() - 1
            },
        ),
        statements.len() > 0 ==> s.len() > 0 && s[s.len() - 1] == 0x0a,
{
    if statements.len() == 0 {
        lemma_run_exact(s, 0, 0, ByteClass::Blank);
        lemma_nothing_at_end(s);
        assert(statements =~= Seq::<StatementModel>::empty());
    } else {
        let st = statements[0];
        let tail = statements.drop_first();
        lemma_has_split(s, 0, text(st), canonical(tail));
        lemma_text_reads(s, 0, st);
        lemma_run_exact(s, 0, 0, ByteClass::Blank);
        let e2 = text(st).len() - 1;
        assert forall|i: int| 0 <= i < tail.len() implies printable(#[trigger] tail[i]) by {
            assert(tail[i] == statements[i + 1]);
        }
        lemma_statements_read(s, e2, tail);
        assert(seq![st] + tail =~= statements);
    }
}

/// Reading the canonical text of printable statements gives exactly
/// those statements.
pub proof fn lemma_canonical_text_reads_back(statements: Seq<StatementModel>)
    requires
        forall|i: int| 0 <= i < statements.len() ==> printable(#[trigger] statements[i]),
    ensures
        spec_all(canonical(statements)) == Ok::<Seq<StatementModel>, Error>(statements),
{
    let s = canonical(statements);
    lemma_whole_input_reads(s, statements);
    if statements.len() == 0 {
        lemma_run_exact(s, 0, 0, ByteClass::Blank);
    } else {
        lemma_run_exact(s, s.len() - 1, s.len() as int, ByteClass::Blank);
    }
}

proof fn lemma_more_rows_are_rows(s: Seq<u8>, pos: int)
    requires
        0 <= pos <= s.len(),
    ensures
        forall|r: int|
            0 <= r < spec_more_rows(s, pos).0.len() ==> is_row(
                #[trigger] spec_more_rows(s, pos).0[r],
            ),
    decreases s.len() - pos,
{
    if let Some((row, end)) = spec_pixels(s, pos + 1) {
        if at(s, pos, 0x0a) && pos < end <= s.len() {
            lemma_word_is_of_class(s, pos + 1, ByteClass::Pixel);
            lemma_more_rows_are_rows(s, end);
            let rest = spec_more_rows(s, end).0;
            assert forall|r: int| 0 <= r < (seq![row] + rest).len() implies is_row(
                #[trigger] (seq![row] + rest)[r],
            ) by {
                if r > 0 {
                    assert((seq![row] + rest)[r] == rest[r - 1]);
                }
            }
        }
    }
}

/// A word that was read is not empty and holds only bytes of its class.
proof fn lemma_word_is_of_class(s: Seq<u8>, pos: int, class: ByteClass)
    requires
        0 <= pos <= s.len(),
        spec_word(s, pos, class) is Some,
    ensures
        spec_word(s, pos, class).unwrap().0.len() > 0,
        forall|i: int|
            0 <= i < spec_word(s, pos, class).unwrap().0.len() ==> class.has(
                #[trigger] spec_word(s, pos, class).unwrap().0[i],
            ),
{
    lemma_run_end(s, pos, class);
}

/// Every statement that the grammar reads is printable.
proof fn lemma_statement_is_printable(s: Seq<u8>, pos: int)
    requires
        0 <= pos <= s.len(),
        spec_statement(s, pos) is Some,
    ensures
        printable(spec_statement(s, pos).unwrap().0),
{
    if spec_comment(s, pos) is Some {
    } else if spec_anim(s, pos) is Some {
        lemma_word_is_of_class(s, pos + 1, ByteClass::Alnum);
    } else if spec_color(s, pos) is Some {
    } else {
        let stop1 = spec_num(s, pos).unwrap().1;
        lemma_run_end(s, pos, ByteClass::Digit);
        let stop2 = spec_line(s, stop1).unwrap();
        let stop3 = spec_sep(s, stop2).unwrap();
        lemma_run_end(s, stop2, ByteClass::Rule);
        let stop4 = spec_line(s, stop3).unwrap();
        let (row, end) = spec_pixels(s, stop4).unwrap();
        lemma_word_is_of_class(s, stop4, ByteClass::Pixel);
        lemma_run_end(s, stop4, ByteClass::Pixel);
        lemma_more_rows_are_rows(s, end);
        let rest = spec_more_rows(s, end).0;
        assert forall|r: int| 0 <= r < (seq![row] + rest).len() implies is_row(
            #[trigger] (seq![row] + rest)[r],
        ) by {
            if r > 0 {
                assert((seq![row] + rest)[r] == rest[r - 1]);
            }
        }
    }
}

proof fn lemma_statements_are_printable(s: Seq<u8>, pos: int)
    requires
        0 <= pos <= s.len(),
    ensures
        forall|i: int|
            0 <= i < spec_statements(s, pos).0.len() ==> printable(
                #[trigger] spec_statements(s, pos).0[i],
            ),
    decreases s.len() - pos,
{
    lemma_run_end(s, pos, ByteClass::Blank);
    if let Some((st, end)) = spec_statement(s, spec_blank(s, pos)) {
        if pos < end <= s.len() {
            lemma_statement_is_printable(s, spec_blank(s, pos));
            lemma_statements_are_printable(s, end);
            let rest = spec_statements(s, end).0;
            assert forall|i: int| 0 <= i < (seq![st] + rest).len() implies printable(
                #[trigger] (seq![st] + rest)[i],
            ) by {
                if i > 0 {
                    assert((seq![st] + rest)[i] == rest[i - 1]);
                }
            }
        }
    }
}

/// Every statement of a document is printable.
pub proof fn lemma_parsed_is_printable(s: Seq<u8>)
    requires
        spec_all(s) is Ok,
    ensures
        forall|i: int|
            0 <= i < spec_all(s).unwrap().len() ==> printable(#[trigger] spec_all(s).unwrap()[i]),
{
    lemma_statements_are_printable(s, 0);
}

fn push_decimal(out: &mut Vec<u8>, n: u32)
    ensures
        final(out)@ == old(out)@ + dec(n as nat),
    decreases n,
{
    if n >= 10 {
        push_decimal(out, n / 10);
    }
    out.push(0x30 + (n % 10) as u8);
    assert(out@ =~= old(out)@ + dec(n as nat));
}

fn push_hex_pair(out: &mut Vec<u8>, b: u8)
    ensures
        final(out)@ == old(out)@ + seq![hex_digit(b as nat / 16), hex_digit(b as nat % 16)],
{
    let hi = b / 16;
    let lo = b % 16;
    out.push(if hi < 10 { 0x30 + hi } else { 0x57 + hi });
    out.push(if lo < 10 { 0x30 + lo } else { 0x57 + lo });
    assert(out@ =~= old(out)@ + seq![hex_digit(b as nat / 16), hex_digit(b as nat % 16)]);
}

fn push_bytes(out: &mut Vec<u8>, src: &[u8])
    ensures
        final(out)@ == old(out)@ + src@,
{
    let mut i: usize = 0;
    while i < src.len()
        invariant
            i <= src@.len(),
            out@ == old(out)@ + src@.take(i as int),
        decreases src@.len() - i,
    {
        out.push(src[i]);
        i += 1;
        assert(out@ =~= old(out)@ + src@.take(i as int));
    }
    assert(src@.take(src@.len() as int) =~= src@);
}

fn push_rule(out: &mut Vec<u8>)
    ensures
        final(out)@ == old(out)@ + rule_text(),
{
    out.push(0x3d);
    out.push(0x3d);
    out.push(0x3d);
    out.push(0x3d);
    out.push(0x0a);
    assert(out@ =~= old(out)@ + rule_text());
}

fn push_rows(out: &mut Vec<u8>, rows: &Vec<Vec<u8>>)
    ensures
        final(out)@ == old(out)@ + rows_text(grid(rows@)),
{
    let ghost g = grid(rows@);
    let mut i: usize = 0;
    assert(g.skip(0) =~= g);
    while i < rows.len()
        invariant
            i <= rows@.len(),
            g == grid(rows@),
            out@ + rows_text(g.skip(i as int)) == old(out)@ + rows_text(g),
        decreases rows@.len() - i,
    {
        let ghost before = out@;
        let ghost rest = rows_text(g.skip(i + 1));
        proof {
            assert(g.skip(i as int).drop_first() =~= g.skip(i + 1));
            assert(g.skip(i as int)[0] == rows@[i as int]@);
        }
        push_bytes(out, rows[i].as_slice());
        out.push(0x0a);
        proof {
            let row = rows@[i as int]@;
            assert(out@ + rest =~= before + (row + (seq![0x0au8] + rest)));
        }
        i += 1;
    }
    assert(rows_text(g.skip(rows@.len() as int)) =~= Seq::<u8>::empty());
    assert(out@ + Seq::<u8>::empty() =~= out@);
}

/// Appends the canonical text of `st` to `out`.
pub fn push_statement(out: &mut Vec<u8>, st: &Statement)
    ensures
        final(out)@ == old(out)@ + text(st@),
{
    match st {
        Statement::Comment => {
            out.push(0x23);
            out.push(0x0a);
            assert(out@ =~= old(out)@ + text(st@));
        },
        Statement::Anim(name, range) => {
            out.push(0x5b);
            push_bytes(out, name.as_slice());
            out.push(0x5d);
            out.push(0x20);
            push_decimal(out, range.start);
            out.push(0x2d);
            out.push(0x3e);
            push_decimal(out, range.end);
            out.push(0x0a);
            assert(out@ =~= old(out)@ + text(st@));
        },
        Statement::Color(key, c) => {
            out.push(*key);
            out.push(0x3a);
            out.push(0x20);
            push_hex_pair(out, c.r);
            push_hex_pair(out, c.g);
            push_hex_pair(out, c.b);
            out.push(0x0a);
            assert(out@ =~= old(out)@ + text(st@));
        },
        Statement::Frame(index, rows) => {
            push_decimal(out, *index);
            out.push(0x0a);
            push_rule(out);
            push_rows(out, rows);
            push_rule(out);
            assert(out@ =~= old(out)@ + text(st@));
        },
    }
}

/// Writes the statements out in canonical form: one line per comment,
/// animation and palette entry, one block per frame, nothing between them.
pub fn to_text(statements: &Vec<Statement>) -> (out: Vec<u8>)
    ensures
        out@ == canonical(models(statements@)),
{
    let ghost m = models(statements@);
    let mut out: Vec<u8> = Vec::new();
    let mut i: usize = 0;
    assert(m.skip(0) =~= m);
    while i < statements.len()
        invariant
            i <= statements@.len(),
            m == models(statements@),
            out@ + canonical(m.skip(i as int)) == canonical(m),
        decreases statements@.len() - i,
    {
        let ghost before = out@;
        let ghost rest = canonical(m.skip(i + 1));
        proof {
            assert(m.skip(i as int).drop_first() =~= m.skip(i + 1));
            assert(m.skip(i as int)[0] == statements@[i as int]@);
        }
        push_statement(&mut out, &statements[i]);
        proof {
            assert(out@ + rest =~= before + (text(statements@[i as int]@) + rest));
        }
        i += 1;
    }
    assert(canonical(m.skip(statements@.len() as int)) =~= Seq::<u8>::empty());
    assert(out@ + Seq::<u8>::empty() =~= out@);
    out
}

} // verus!
