//! The hand-written recognizers against the same grammar put together from
//! parser combinators.

use std::str::FromStr;

use dirt::color::Color;
use dirt::grammar::{all, Anim, Statement};
use pom::char_class::{alphanum, digit, hex_digit};
use pom::parser::{is_a, list, none_of, one_of, sym};
use pom::Parser;

fn c_space() -> Parser<u8, ()> {
    sym(b' ').opt().discard()
}

fn c_line() -> Parser<u8, ()> {
    one_of(b"\n\r").discard()
}

fn c_blank() -> Parser<u8, ()> {
    one_of(b" \n\r\t").repeat(0..).discard()
}

fn c_label() -> Parser<u8, Vec<u8>> {
    is_a(alphanum).repeat(1..)
}

fn c_pixels() -> Parser<u8, Vec<u8>> {
    is_a(|b| alphanum(b) || b == b'.').repeat(1..)
}

fn c_num() -> Parser<u8, u32> {
    is_a(digit).repeat(1..).convert(String::from_utf8).convert(|s| u32::from_str(&s))
}

fn c_sep() -> Parser<u8, ()> {
    sym(b'=').repeat(1..).discard()
}

fn c_title() -> Parser<u8, Vec<u8>> {
    sym(b'[') * c_label() - sym(b']')
}

fn c_span() -> Parser<u8, Anim> {
    let parsed = c_num() - (pom::parser::seq(b"->") | pom::parser::seq(b"<->")) + c_num();
    parsed.map(|(a, b)| Anim { start: a, end: b })
}

fn c_frame() -> Parser<u8, Statement> {
    let rule = c_num() - c_line() - c_sep() - c_line() + list(c_pixels(), sym(b'\n')) - c_line()
        - c_sep();
    rule.map(|(n, f)| Statement::Frame(n, f))
}

fn c_color() -> Parser<u8, Statement> {
    let rule = is_a(alphanum) - sym(b':') - c_space()
        + is_a(hex_digit)
            .repeat(6)
            .convert(String::from_utf8)
            .convert(|s| u32::from_str_radix(&s, 16))
            .map(|v| Color::from_hex(v, 255));
    rule.map(|(k, c)| Statement::Color(k, c))
}

fn c_anim() -> Parser<u8, Statement> {
    let rule = c_title() - c_space() + c_span();
    rule.map(|(s, a)| Statement::Anim(s, a))
}

fn c_comment() -> Parser<u8, Statement> {
    let rule = sym(b'#') * none_of(b"\n\r").repeat(0..).discard();
    rule.map(|_| Statement::Comment)
}

fn c_all() -> Parser<u8, Vec<Statement>> {
    c_blank() * list(c_comment() | c_anim() | c_color() | c_frame(), c_blank()) - c_blank()
}

fn agree(text: &'static [u8]) {
    let ours = all(text).unwrap();
    let theirs = c_all().parse(text).unwrap();
    assert_eq!(ours, theirs);
}

#[test]
fn combinators_agree_on_a_full_document() {
    agree(b"# a sprite\n[walk] 1->2\n[idle]3<->3\nr: ff0000\nB:00Ff7f\n\n1\n====\nr.B\n.rB\n====\n\n2\n==\nBBB\n...\n==\n");
}

#[test]
fn combinators_agree_on_tight_and_loose_spacing() {
    agree(b"a: 000000b: ffffff[x]1->2#c\r\n\t 1\r=\ra\r=");
    agree(b"   \n\n  # only a comment");
    agree(b"");
    agree(b"\n\n\t  \r");
}

#[test]
fn combinators_agree_on_digits_as_palette_keys() {
    agree(b"1: 0000ff\n1\n=\n1\n=\n2: 00ff00 2\n=\n2\n=");
}

#[test]
fn combinators_agree_on_numbers_at_the_limit() {
    agree(b"[a] 4294967295->0\n[b] 0000000001<->00");
}

#[test]
fn combinators_stop_where_the_document_ends() {
    let text: &'static [u8] = b"r: ff0000\n[a] 1-2\n";
    assert_eq!(c_all().parse(text).unwrap().len(), 1);
    assert_eq!(all(text), Err(dirt::error::Error::Grammar { position: 10 }));
    let text: &'static [u8] = b"[a] 4294967296->1";
    assert_eq!(c_all().parse(text).unwrap().len(), 0);
    assert_eq!(all(text), Err(dirt::error::Error::Grammar { position: 0 }));
}
