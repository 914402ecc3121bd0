use dirt::error::Error;
use dirt::grammar::Anim;
use dirt::raster::Quad;
use dirt::sheet::Dirt;

const RED: [u8; 4] = [255, 0, 0, 255];
const GREEN: [u8; 4] = [0, 255, 0, 255];
const CLEAR: [u8; 4] = [0, 0, 0, 0];

fn flat(pixels: &[[u8; 4]]) -> Vec<u8> {
    let mut out = Vec::new();
    for p in pixels {
        out.extend_from_slice(p);
    }
    out
}

#[test]
fn one_frame_two_by_two() {
    let sheet = Dirt::from_str("r: ff0000\n1\n====\nr.\n.r\n====\n").unwrap();
    assert_eq!(sheet.framelist, vec![Quad { x: 0, y: 0, w: 2, h: 2 }]);
    assert_eq!(sheet.image_data.width, 2);
    assert_eq!(sheet.image_data.height, 2);
    assert_eq!(sheet.image_data.data.len(), 16);
    assert_eq!(sheet.image_data.data, flat(&[RED, CLEAR, CLEAR, RED]));
    assert_eq!(sheet.anims.len(), 0);
}

#[test]
fn two_frames_side_by_side() {
    let sheet = Dirt::from_str("g: 00ff00\n1\n==\ng.\n==\n2\n==\n.g\n==").unwrap();
    assert_eq!(sheet.image_data.width, 4);
    assert_eq!(sheet.image_data.height, 1);
    assert_eq!(
        sheet.framelist,
        vec![Quad { x: 0, y: 0, w: 2, h: 1 }, Quad { x: 2, y: 0, w: 2, h: 1 }]
    );
    assert_eq!(sheet.image_data.data, flat(&[GREEN, CLEAR, CLEAR, GREEN]));
}

#[test]
fn two_tall_frames_interleave_by_image_row() {
    let text = "r: ff0000\ng: 00ff00\n1\n=\nr\n.\n=\n2\n=\ng\ng\n=";
    let sheet = Dirt::from_str(text).unwrap();
    assert_eq!(sheet.image_data.width, 2);
    assert_eq!(sheet.image_data.height, 2);
    assert_eq!(sheet.image_data.data, flat(&[RED, GREEN, CLEAR, GREEN]));
    assert_eq!(
        sheet.framelist,
        vec![Quad { x: 0, y: 0, w: 1, h: 2 }, Quad { x: 1, y: 0, w: 1, h: 2 }]
    );
}

#[test]
fn frame_two_without_frame_one() {
    let r = Dirt::from_str("r: ff0000\n2\n====\nr\n====\n");
    assert_eq!(r, Err(Error::FrameOrder { expected: 1, actual: 2 }));
}

#[test]
fn repeated_frame_index() {
    let r = Dirt::from_str("1\n=\n.\n=\n1\n=\n.\n=");
    assert_eq!(r, Err(Error::FrameOrder { expected: 2, actual: 1 }));
}

#[test]
fn skipped_frame_index() {
    let r = Dirt::from_str("1\n=\n.\n=\n3\n=\n.\n=");
    assert_eq!(r, Err(Error::FrameOrder { expected: 2, actual: 3 }));
}

#[test]
fn unknown_palette_key() {
    let r = Dirt::from_str("r: ff0000\n1\n====\nr.\n.z\n====\n");
    assert_eq!(r, Err(Error::PaletteResolution { ch: b'z', frame: 1, row: 1, column: 1 }));
}

#[test]
fn first_unknown_key_in_reading_order_is_reported() {
    let r = Dirt::from_str("1\n=\n..\n.y\n=\n2\n=\nx.\n..\n=");
    assert_eq!(r, Err(Error::PaletteResolution { ch: b'y', frame: 1, row: 1, column: 1 }));
}

#[test]
fn palette_entry_after_the_frame_still_counts() {
    let sheet = Dirt::from_str("1\n=\nr\n=\nr: ff0000").unwrap();
    assert_eq!(sheet.image_data.data, flat(&[RED]));
}

#[test]
fn later_palette_entry_wins() {
    let sheet = Dirt::from_str("a: ff0000\na: 00ff00\n1\n=\na\n=").unwrap();
    assert_eq!(sheet.image_data.data, flat(&[GREEN]));
}

#[test]
fn anim_redeclared_last_wins() {
    let sheet = Dirt::from_str("[walk] 1->4\n[walk] 5<->9").unwrap();
    assert_eq!(sheet.anims.len(), 1);
    assert_eq!(sheet.anims.get("walk"), Some(Anim { start: 5, end: 9 }));
    assert_eq!(sheet.anims.get("run"), None);
}

#[test]
fn arrow_without_a_start_is_not_an_anim() {
    let r = Dirt::from_str("[walk] 1->4\n[walk] <->9");
    assert_eq!(r, Err(Error::Grammar { position: 12 }));
}

#[test]
fn anim_range_is_not_held_against_the_frames() {
    let sheet = Dirt::from_str("[idle] 7->3").unwrap();
    assert_eq!(sheet.anims.get("idle"), Some(Anim { start: 7, end: 3 }));
    assert_eq!(sheet.framelist, vec![]);
}

#[test]
fn empty_document_is_an_empty_sheet() {
    let sheet = Dirt::from_str("  \n\t\r\n").unwrap();
    assert_eq!(sheet.image_data.width, 0);
    assert_eq!(sheet.image_data.height, 0);
    assert_eq!(sheet.image_data.data, Vec::<u8>::new());
    assert_eq!(sheet.framelist, vec![]);
    assert_eq!(sheet.anims.len(), 0);
}

#[test]
fn frames_of_different_width() {
    let r = Dirt::from_str("1\n=\n..\n=\n2\n=\n...\n=");
    assert_eq!(r, Err(Error::Dimension));
}

#[test]
fn frames_of_different_height() {
    let r = Dirt::from_str("1\n=\n..\n=\n2\n=\n..\n..\n=");
    assert_eq!(r, Err(Error::Dimension));
}

#[test]
fn ragged_rows() {
    let r = Dirt::from_str("1\n=\n..\n.\n=");
    assert_eq!(r, Err(Error::Dimension));
}

#[test]
fn order_is_checked_before_shape() {
    let r = Dirt::from_str("4\n=\n..\n.\n=");
    assert_eq!(r, Err(Error::FrameOrder { expected: 1, actual: 4 }));
}

#[test]
fn leftover_text_is_a_grammar_error() {
    let r = Dirt::from_str("r: ff0000\n???");
    assert_eq!(r, Err(Error::Grammar { position: 10 }));
}

#[test]
fn short_hex_is_a_grammar_error() {
    let r = Dirt::from_str("r: ff00");
    assert_eq!(r, Err(Error::Grammar { position: 0 }));
}

#[test]
fn canonical_text_gives_the_same_sheet() {
    let loose = "# sprite\n\n[walk]1<->2\nr:ff0000\n\n\n1\r==\rr.\r======\n\n2\n=\n.r\n=\n   ";
    let canonical = "[walk] 1->2\nr: ff0000\n1\n====\nr.\n====\n2\n====\n.r\n====\n";
    let a = Dirt::from_str(loose).unwrap();
    let b = Dirt::from_str(canonical).unwrap();
    assert_eq!(a.image_data, b.image_data);
    assert_eq!(a.framelist, b.framelist);
    assert_eq!(a.anims.get("walk"), b.anims.get("walk"));
    assert_eq!(a.anims.len(), b.anims.len());
}

#[test]
fn compiling_twice_gives_the_same_sheet() {
    let text = "r: ff0000\ng: 00ff00\n1\n=\nrg\n=\n2\n=\ngr\n=";
    assert_eq!(Dirt::from_str(text), Dirt::from_str(text));
}

#[test]
fn from_bytes_agrees_with_from_str() {
    let text = "r: ff0000\n1\n=\nr\n=";
    assert_eq!(Dirt::from_bytes(text.as_bytes()), Dirt::from_str(text));
}
