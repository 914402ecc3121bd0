use std::collections::HashMap;

use dirt::anims::{same_bytes, AnimTable};
use dirt::assemble::assemble;
use dirt::color::Color;
use dirt::error::Error;
use dirt::frames::{CharFrame, CharFramelist};
use dirt::grammar::{Anim, Statement};
use dirt::raster::{Layout, Quad};

fn rows(lines: &[&str]) -> Vec<Vec<u8>> {
    lines.iter().map(|l| l.as_bytes().to_vec()).collect()
}

fn list(palette: &[(u8, Color)], frames: &[&[&str]]) -> CharFramelist {
    let mut map = HashMap::new();
    for (k, c) in palette {
        map.insert(*k, *c);
    }
    let mut list = CharFramelist::new(map);
    for f in frames {
        list.add(CharFrame::new(rows(f)).unwrap()).unwrap();
    }
    list
}

const RED: Color = Color { r: 255, g: 0, b: 0, a: 255 };
const BLUE: Color = Color { r: 0, g: 0, b: 255, a: 255 };

#[test]
fn color_from_hex_splits_channels() {
    assert_eq!(Color::from_hex(0x123456, 255), Color { r: 0x12, g: 0x34, b: 0x56, a: 255 });
    assert_eq!(Color::from_hex(0, 0), Color { r: 0, g: 0, b: 0, a: 0 });
    assert_eq!(Color::from_hex(0xff_abcdef, 7), Color { r: 0xab, g: 0xcd, b: 0xef, a: 7 });
}

#[test]
fn color_append_pushes_rgba() {
    let mut buf = vec![9u8];
    Color { r: 1, g: 2, b: 3, a: 4 }.append(&mut buf);
    assert_eq!(buf, vec![9, 1, 2, 3, 4]);
}

#[test]
fn char_frame_measures_its_grid() {
    let f = CharFrame::new(rows(&["abc", "de."])).unwrap();
    assert_eq!(f.width, 3);
    assert_eq!(f.height, 2);
    assert_eq!(f.data, rows(&["abc", "de."]));
}

#[test]
fn char_frame_rejects_bad_grids() {
    assert_eq!(CharFrame::new(vec![]), Err(Error::Dimension));
    assert_eq!(CharFrame::new(rows(&[""])), Err(Error::Dimension));
    assert_eq!(CharFrame::new(rows(&["ab", "a"])), Err(Error::Dimension));
    assert_eq!(CharFrame::new(rows(&["a", "ab"])), Err(Error::Dimension));
}

#[test]
fn framelist_size_is_that_of_its_frames() {
    let empty = CharFramelist::new(HashMap::new());
    assert_eq!(empty.size(), None);
    let l = list(&[], &[&["...", "..."]]);
    assert_eq!(l.size(), Some((3, 2)));
}

#[test]
fn framelist_add_rejects_another_size() {
    let mut l = list(&[], &[&["..", ".."]]);
    let r = l.add(CharFrame::new(rows(&[".."])).unwrap());
    assert_eq!(r, Err(Error::Dimension));
    assert_eq!(l.frames.len(), 1);
    let r = l.add(CharFrame::new(rows(&["..", ".."])).unwrap());
    assert_eq!(r, Ok(()));
    assert_eq!(l.frames.len(), 2);
}

#[test]
fn resolve_dot_is_always_clear() {
    let l = list(&[(b'.', RED), (b'r', RED)], &[]);
    assert_eq!(l.resolve(b'.'), Some(Color { r: 0, g: 0, b: 0, a: 0 }));
    assert_eq!(l.resolve(b'r'), Some(RED));
    assert_eq!(l.resolve(b'q'), None);
}

#[test]
fn vertical_layout_stacks_frames() {
    let l = list(&[(b'r', RED), (b'b', BLUE)], &[&["r."], &["bb"]]);
    let (image, quads) = l.to_pixels(Layout::Vertical).unwrap();
    assert_eq!(image.width, 2);
    assert_eq!(image.height, 2);
    assert_eq!(
        image.data,
        vec![255, 0, 0, 255, 0, 0, 0, 0, 0, 0, 255, 255, 0, 0, 255, 255]
    );
    assert_eq!(quads, vec![Quad { x: 0, y: 0, w: 2, h: 1 }, Quad { x: 0, y: 1, w: 2, h: 1 }]);
}

#[test]
fn horizontal_layout_puts_frames_in_a_row() {
    let l = list(&[(b'r', RED), (b'b', BLUE)], &[&["r", "."], &["b", "b"], &[".", "r"]]);
    let (image, quads) = l.to_pixels(Layout::Horizontal).unwrap();
    assert_eq!(image.width, 3);
    assert_eq!(image.height, 2);
    assert_eq!(
        image.data,
        vec![
            255, 0, 0, 255, 0, 0, 255, 255, 0, 0, 0, 0, //
            0, 0, 0, 0, 0, 0, 255, 255, 255, 0, 0, 255,
        ]
    );
    assert_eq!(
        quads,
        vec![
            Quad { x: 0, y: 0, w: 1, h: 2 },
            Quad { x: 1, y: 0, w: 1, h: 2 },
            Quad { x: 2, y: 0, w: 1, h: 2 },
        ]
    );
}

#[test]
fn rasterizing_twice_gives_the_same_bytes() {
    let l = list(&[(b'r', RED), (b'b', BLUE)], &[&["rb", "br"], &["..", "rr"]]);
    assert_eq!(l.to_pixels(Layout::Horizontal), l.to_pixels(Layout::Horizontal));
    assert_eq!(l.to_pixels(Layout::Vertical), l.to_pixels(Layout::Vertical));
}

#[test]
fn rasterizing_names_the_unknown_byte() {
    let l = list(&[(b'r', RED)], &[&["rr", "rr"], &["r.", "zq"]]);
    let want = Err(Error::PaletteResolution { ch: b'z', frame: 2, row: 1, column: 0 });
    assert_eq!(l.to_pixels(Layout::Horizontal), want);
    assert_eq!(l.to_pixels(Layout::Vertical), want);
    assert_eq!(l.check_palette(), Err(Error::PaletteResolution { ch: b'z', frame: 2, row: 1, column: 0 }));
}

#[test]
fn no_frames_no_image() {
    let l = list(&[(b'r', RED)], &[]);
    let (image, quads) = l.to_pixels(Layout::Vertical).unwrap();
    assert_eq!((image.width, image.height, image.data.len(), quads.len()), (0, 0, 0, 0));
}

#[test]
fn anim_table_upserts() {
    let mut t = AnimTable::new();
    assert_eq!(t.len(), 0);
    t.insert(b"walk".to_vec(), Anim { start: 1, end: 4 });
    t.insert(b"run".to_vec(), Anim { start: 5, end: 6 });
    t.insert(b"walk".to_vec(), Anim { start: 2, end: 9 });
    assert_eq!(t.len(), 2);
    assert_eq!(t.get("walk"), Some(Anim { start: 2, end: 9 }));
    assert_eq!(t.get("run"), Some(Anim { start: 5, end: 6 }));
    assert_eq!(t.get("wal"), None);
    assert_eq!(t.find(b"run"), Some(1));
    assert_eq!(t.find(b"jump"), None);
}

#[test]
fn same_bytes_compares_contents() {
    assert!(same_bytes(b"abc", b"abc"));
    assert!(!same_bytes(b"abc", b"abd"));
    assert!(!same_bytes(b"abc", b"ab"));
    assert!(same_bytes(b"", b""));
}

#[test]
fn assemble_collects_in_one_pass() {
    let statements = vec![
        Statement::Color(b'r', RED),
        Statement::Frame(1, rows(&["r."])),
        Statement::Comment,
        Statement::Anim(b"a".to_vec(), Anim { start: 1, end: 2 }),
        Statement::Frame(2, rows(&[".r"])),
        Statement::Color(b'r', BLUE),
    ];
    let (anims, list) = assemble(&statements).unwrap();
    assert_eq!(anims.get("a"), Some(Anim { start: 1, end: 2 }));
    assert_eq!(list.frames.len(), 2);
    assert_eq!(list.frames[1].data, rows(&[".r"]));
    assert_eq!(list.palette.get(&b'r'), Some(&BLUE));
}

#[test]
fn assemble_stops_at_the_first_failure() {
    let statements = vec![
        Statement::Frame(1, rows(&["r."])),
        Statement::Frame(2, rows(&["r"])),
        Statement::Frame(7, rows(&["r."])),
    ];
    assert_eq!(assemble(&statements).err(), Some(Error::Dimension));
    let statements = vec![
        Statement::Frame(1, rows(&["r."])),
        Statement::Frame(3, rows(&["r"])),
    ];
    assert_eq!(assemble(&statements).err(), Some(Error::FrameOrder { expected: 2, actual: 3 }));
    let statements = vec![Statement::Frame(1, vec![])];
    assert_eq!(assemble(&statements).err(), Some(Error::Dimension));
}
