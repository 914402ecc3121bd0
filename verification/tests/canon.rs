use dirt::canon::{push_statement, to_text};
use dirt::color::Color;
use dirt::grammar::{all, Anim, Statement};
use dirt::sheet::Dirt;

fn text_of(st: Statement) -> String {
    let mut out = Vec::new();
    push_statement(&mut out, &st);
    String::from_utf8(out).unwrap()
}

#[test]
fn canonical_comment() {
    assert_eq!(text_of(Statement::Comment), "#\n");
}

#[test]
fn canonical_anim() {
    let st = Statement::Anim(b"walk".to_vec(), Anim { start: 1, end: 40 });
    assert_eq!(text_of(st), "[walk] 1->40\n");
    let st = Statement::Anim(b"x".to_vec(), Anim { start: 0, end: 4294967295 });
    assert_eq!(text_of(st), "[x] 0->4294967295\n");
}

#[test]
fn canonical_palette_entry() {
    let st = Statement::Color(b'r', Color { r: 0xff, g: 0x0a, b: 0xb0, a: 255 });
    assert_eq!(text_of(st), "r: ff0ab0\n");
}

#[test]
fn canonical_frame() {
    let st = Statement::Frame(12, vec![b"r.".to_vec(), b".r".to_vec()]);
    assert_eq!(text_of(st), "12\n====\nr.\n.r\n====\n");
}

#[test]
fn canonical_document_appends_to_what_is_there() {
    let mut out = b"x".to_vec();
    push_statement(&mut out, &Statement::Comment);
    assert_eq!(out, b"x#\n".to_vec());
    assert_eq!(to_text(&vec![]), Vec::<u8>::new());
}

#[test]
fn canonical_text_reads_back() {
    let loose = b"# sprite\n\n[walk]1<->2  [run] 007->9\nr:FF0000\n\n\n1\r==\rr.\n.r\r======\n\n2\n=\n.r\nr.\n=\n   # end";
    let statements = all(loose).unwrap();
    let canonical = to_text(&statements);
    assert_eq!(
        String::from_utf8(canonical.clone()).unwrap(),
        "#\n[walk] 1->2\n[run] 7->9\nr: ff0000\n1\n====\nr.\n.r\n====\n2\n====\n.r\nr.\n====\n#\n"
    );
    assert_eq!(all(&canonical), Ok(statements.clone()));
    assert_eq!(to_text(&all(&canonical).unwrap()), canonical);
}

#[test]
fn canonical_text_compiles_to_the_same_sheet() {
    let loose = b"g:00ff00 [a]3->4 1\n=\ng.\n=\n[a]5<->6";
    let first = Dirt::from_bytes(loose);
    let second = Dirt::from_bytes(&to_text(&all(loose).unwrap()));
    assert!(first.is_ok());
    assert_eq!(first, second);
}

#[test]
fn canonical_text_fails_the_same_way() {
    let loose = b"1\n=\nq\n=";
    let first = Dirt::from_bytes(loose);
    let second = Dirt::from_bytes(&to_text(&all(loose).unwrap()));
    assert!(first.is_err());
    assert_eq!(first, second);
    let loose = b"3\n=\nq\n=";
    assert_eq!(Dirt::from_bytes(loose), Dirt::from_bytes(&to_text(&all(loose).unwrap())));
}
