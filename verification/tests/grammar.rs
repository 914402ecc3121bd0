use dirt::color::Color;
use dirt::error::Error;
use dirt::grammar::{all, anim, color, comment, frame, span, title, Anim, Statement};
use dirt::lex;
use dirt::lex::{blank, hex6, label, num, pixels, scan, sep, space, ByteClass};

#[test]
fn space_is_optional() {
    assert_eq!(space(b" x", 0), 1);
    assert_eq!(space(b"x", 0), 0);
    assert_eq!(space(b"  x", 0), 1);
    assert_eq!(space(b"", 0), 0);
}

#[test]
fn line_takes_one_break() {
    assert_eq!(lex::line(b"\n\n", 0), Some(1));
    assert_eq!(lex::line(b"\r\n", 0), Some(1));
    assert_eq!(lex::line(b"x", 0), None);
    assert_eq!(lex::line(b"", 0), None);
}

#[test]
fn blank_takes_all_kinds_of_blank() {
    assert_eq!(blank(b" \t\r\n x", 0), 5);
    assert_eq!(blank(b"x", 0), 0);
    assert_eq!(blank(b"ab  ", 2), 4);
}

#[test]
fn scan_stops_at_the_first_byte_outside_the_class() {
    assert_eq!(scan(b"123abc", 0, ByteClass::Digit), 3);
    assert_eq!(scan(b"123abc", 0, ByteClass::Alnum), 6);
    assert_eq!(scan(b"a.b=c", 0, ByteClass::Pixel), 3);
    assert_eq!(scan(b"a.b=c", 3, ByteClass::Rule), 4);
    assert_eq!(scan(b"# x\ny", 0, ByteClass::Inline), 3);
}

#[test]
fn label_is_alphanumeric() {
    assert_eq!(label(b"walk2]", 0), Some((b"walk2".to_vec(), 5)));
    assert_eq!(label(b"]", 0), None);
    assert_eq!(label(b"a_b", 0), Some((b"a".to_vec(), 1)));
}

#[test]
fn pixels_take_dots_too() {
    assert_eq!(pixels(b"r.g\n", 0), Some((b"r.g".to_vec(), 3)));
    assert_eq!(pixels(b"\n", 0), None);
}

#[test]
fn num_reads_decimal() {
    assert_eq!(num(b"42->", 0), Some((42, 2)));
    assert_eq!(num(b"007", 0), Some((7, 3)));
    assert_eq!(num(b"x", 0), None);
    assert_eq!(num(b"", 0), None);
}

#[test]
fn num_must_fit_in_32_bits() {
    assert_eq!(num(b"4294967295", 0), Some((4294967295, 10)));
    assert_eq!(num(b"4294967296", 0), None);
    assert_eq!(num(b"00000000004294967295", 0), Some((4294967295, 20)));
    assert_eq!(num(b"99999999999999999999999999", 0), None);
}

#[test]
fn sep_needs_one_rule_byte() {
    assert_eq!(sep(b"====\n", 0), Some(4));
    assert_eq!(sep(b"=", 0), Some(1));
    assert_eq!(sep(b"-", 0), None);
}

#[test]
fn hex6_reads_six_digits() {
    assert_eq!(hex6(b"ff0000", 0), Some((0xff0000, 6)));
    assert_eq!(hex6(b"1aB2c3d", 0), Some((0x1ab2c3, 6)));
    assert_eq!(hex6(b"ff000", 0), None);
    assert_eq!(hex6(b"ff00g0", 0), None);
}

#[test]
fn title_is_a_label_in_brackets() {
    assert_eq!(title(b"[walk] 1", 0), Some((b"walk".to_vec(), 6)));
    assert_eq!(title(b"[] 1", 0), None);
    assert_eq!(title(b"[walk", 0), None);
    assert_eq!(title(b"walk]", 0), None);
}

#[test]
fn span_takes_either_arrow() {
    assert_eq!(span(b"1->4", 0), Some((Anim { start: 1, end: 4 }, 4)));
    assert_eq!(span(b"1<->4", 0), Some((Anim { start: 1, end: 4 }, 5)));
    assert_eq!(span(b"1-4", 0), None);
    assert_eq!(span(b"1<-4", 0), None);
    assert_eq!(span(b"1 ->4", 0), None);
    assert_eq!(span(b"1->", 0), None);
}

#[test]
fn anim_with_and_without_space() {
    let want = Statement::Anim(b"run".to_vec(), Anim { start: 3, end: 8 });
    assert_eq!(anim(b"[run] 3->8", 0), Some((want.clone(), 10)));
    assert_eq!(anim(b"[run]3->8", 0), Some((want, 9)));
    assert_eq!(anim(b"[run]  3->8", 0), None);
}

#[test]
fn color_is_opaque() {
    let want = Statement::Color(b'r', Color { r: 0x12, g: 0x34, b: 0xab, a: 255 });
    assert_eq!(color(b"r: 1234ab", 0), Some((want.clone(), 9)));
    assert_eq!(color(b"r:1234AB", 0), Some((want, 8)));
    assert_eq!(color(b".: 1234ab", 0), None);
    assert_eq!(color(b"rr: 1234ab", 0), None);
}

#[test]
fn comment_runs_to_the_end_of_the_line() {
    assert_eq!(comment(b"# hi [x] 1->2\nr", 0), Some((Statement::Comment, 13)));
    assert_eq!(comment(b"#", 0), Some((Statement::Comment, 1)));
    assert_eq!(comment(b" #", 0), None);
}

#[test]
fn frame_block() {
    let want = Statement::Frame(1, vec![b"r.".to_vec(), b".r".to_vec()]);
    assert_eq!(frame(b"1\n====\nr.\n.r\n====", 0), Some((want, 17)));
    assert_eq!(frame(b"1\n====\n\n====", 0), None);
    assert_eq!(frame(b"1\n====\nr.\n.r\n", 0), None);
    assert_eq!(frame(b"1\n====\nr.\r.r\n====", 0), None);
    assert_eq!(frame(b"1 \n====\nr\n====", 0), None);
}

#[test]
fn document_in_order() {
    let got = all(b"# c\n[a] 1->2\nk: 000001\n1\n=\nk\n=\n").unwrap();
    assert_eq!(
        got,
        vec![
            Statement::Comment,
            Statement::Anim(b"a".to_vec(), Anim { start: 1, end: 2 }),
            Statement::Color(b'k', Color { r: 0, g: 0, b: 1, a: 255 }),
            Statement::Frame(1, vec![b"k".to_vec()]),
        ]
    );
}

#[test]
fn statements_need_no_blank_between_them() {
    let got = all(b"a: 000000b: ffffff").unwrap();
    assert_eq!(got.len(), 2);
}

#[test]
fn a_digit_before_a_colon_is_a_palette_key() {
    let got = all(b"1: 0000ff").unwrap();
    assert_eq!(got, vec![Statement::Color(b'1', Color { r: 0, g: 0, b: 255, a: 255 })]);
}

#[test]
fn document_error_position() {
    assert_eq!(all(b"  [a] 1->2\n  [b 1->2"), Err(Error::Grammar { position: 13 }));
    assert_eq!(all(b"1\n=\n.\n"), Err(Error::Grammar { position: 0 }));
    assert_eq!(all(b""), Ok(vec![]));
}
