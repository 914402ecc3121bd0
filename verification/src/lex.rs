//! Lexical primitives: byte classes, maximal runs, optional and mandatory
//! single bytes, decimal numbers and six-digit hexadecimal literals.
//!
//! Every recognizer works on a byte sequence and a position, and either
//! fails or yields a value together with the position just past what it
//! consumed.
use vstd::prelude::*;

verus! {

/// The sets of bytes that the grammar distinguishes.
#[derive(Debug, Clone, Copy, PartialEq, Eq, Structural)]
pub enum ByteClass {
    /// `0-9`
    Digit,
    /// `0-9`, `a-z`, `A-Z`
    Alnum,
    /// An alphanumeric byte or `.`: what a frame row is made of.
    Pixel,
    /// Space, tab, line feed, carriage return.
    Blank,
    /// `=`, the byte of a separator line.
    Rule,
    /// Anything but line feed and carriage return.
    Inline,
}

pub open spec fn is_digit(b: u8) -> bool {
    0x30 <= b <= 0x39
}

pub open spec fn is_alnum(b: u8) -> bool {
    is_digit(b) || (0x41 <= b <= 0x5a) || (0x61 <= b <= 0x7a)
}

pub open spec fn is_hex_digit(b: u8) -> bool {
    is_digit(b) || (0x41 <= b <= 0x46) || (0x61 <= b <= 0x66)
}

pub open spec fn is_newline(b: u8) -> bool {
    b == 0x0a || b == 0x0d
}

impl ByteClass {
    /// Whether `b` belongs to this class.
    pub open spec fn has(self, b: u8) -> bool {
        match self {
            ByteClass::Digit => is_digit(b),
            ByteClass::Alnum => is_alnum(b),
            ByteClass::Pixel => is_alnum(b) || b == 0x2e,
            ByteClass::Blank => b == 0x20 || b == 0x09 || is_newline(b),
            ByteClass::Rule => b == 0x3d,
            ByteClass::Inline => !is_newline(b),
        }
    }

    /// Whether `b` belongs to this class.
    pub fn contains(self, b: u8) -> (r: bool)
        ensures
            r == self.has(b),
    {
        let digit = 0x30 <= b && b <= 0x39;
        let alnum = digit || (0x41 <= b && b <= 0x5a) || (0x61 <= b && b <= 0x7a);
        let newline = b == 0x0a || b == 0x0d;
        match self {
            ByteClass::Digit => digit,
            ByteClass::Alnum => alnum,
            ByteClass::Pixel => alnum || b == 0x2e,
            ByteClass::Blank => b == 0x20 || b == 0x09 || newline,
            ByteClass::Rule => b == 0x3d,
            ByteClass::Inline => !newline,
        }
    }
}

/// The end of the longest run of bytes of `class` that starts at `pos`.
pub open spec fn run_end(s: Seq<u8>, pos: int, class: ByteClass) -> int
    decreases s.len() - pos,
{
    if 0 <= pos < s.len() && class.has(s[pos]) {
        run_end(s, pos + 1, class)
    } else {
        pos
    }
}

/// A run ends inside the input, holds only bytes of its class, and cannot
/// be extended.
pub proof fn lemma_run_end(s: Seq<u8>, pos: int, class: ByteClass)
    requires
        0 <= pos <= s.len(),
    ensures
        pos <= run_end(s, pos, class) <= s.len(),
        forall|i: int| pos <= i < run_end(s, pos, class) ==> class.has(#[trigger] s[i]),
        run_end(s, pos, class) < s.len() ==> !class.has(s[run_end(s, pos, class)]),
    decreases s.len() - pos,
{
    if pos < s.len() && class.has(s[pos]) {
        lemma_run_end(s, pos + 1, class);
    }
}

/// Skips the longest run of bytes of `class` at `pos`.
pub fn scan(input: &[u8], pos: usize, class: ByteClass) -> (end: usize)
    requires
        pos <= input.len(),
    ensures
        end == run_end(input@, pos as int, class),
        pos <= end <= input.len(),
{
    let mut i: usize = pos;
    while i < input.len() && class.contains(input[i])
        invariant
            pos <= i <= input.len(),
            run_end(input@, pos as int, class) == run_end(input@, i as int, class),
        decreases input.len() - i,
    {
        i += 1;
    }
    i
}

/// Whether the byte at `pos` exists and equals `b`.
pub open spec fn at(s: Seq<u8>, pos: int, b: u8) -> bool {
    0 <= pos < s.len() && s[pos] == b
}

/// Whether the byte at `pos` exists and equals `b`.
pub fn peek(input: &[u8], pos: usize, b: u8) -> (r: bool)
    ensures
        r == at(input@, pos as int, b),
{
    pos < input.len() && input[pos] == b
}

/// An optional single space.
pub open spec fn spec_space(s: Seq<u8>, pos: int) -> int {
    if at(s, pos, 0x20) {
        pos + 1
    } else {
        pos
    }
}

/// Skips one space at `pos` if there is one.
pub fn space(input: &[u8], pos: usize) -> (end: usize)
    requires
        pos <= input.len(),
    ensures
        end == spec_space(input@, pos as int),
        pos <= end <= input.len(),
{
    if peek(input, pos, 0x20) {
        pos + 1
    } else {
        pos
    }
}

/// One line break: a line feed or a carriage return.
pub open spec fn spec_line(s: Seq<u8>, pos: int) -> Option<int> {
    if 0 <= pos < s.len() && is_newline(s[pos]) {
        Some(pos + 1)
    } else {
        None
    }
}

/// Reads one line break at `pos`.
pub fn line(input: &[u8], pos: usize) -> (r: Option<usize>)
    requires
        pos <= input.len(),
    ensures
        r.is_some() == spec_line(input@, pos as int).is_some(),
        r.is_some() ==> r.unwrap() == spec_line(input@, pos as int).unwrap() && r.unwrap()
            <= input.len(),
{
    if pos < input.len() && (input[pos] == 0x0a || input[pos] == 0x0d) {
        Some(pos + 1)
    } else {
        None
    }
}

/// A possibly empty run of blanks.
pub open spec fn spec_blank(s: Seq<u8>, pos: int) -> int {
    run_end(s, pos, ByteClass::Blank)
}

/// Skips the blanks at `pos`.
pub fn blank(input: &[u8], pos: usize) -> (end: usize)
    requires
        pos <= input.len(),
    ensures
        end == spec_blank(input@, pos as int),
        pos <= end <= input.len(),
{
    scan(input, pos, ByteClass::Blank)
}

/// A separator line: one or more `=`.
pub open spec fn spec_sep(s: Seq<u8>, pos: int) -> Option<int> {
    let end = run_end(s, pos, ByteClass::Rule);
    if end > pos {
        Some(end)
    } else {
        None
    }
}

/// Reads a separator line at `pos`.
pub fn sep(input: &[u8], pos: usize) -> (r: Option<usize>)
    requires
        pos <= input.len(),
    ensures
        r.is_some() == spec_sep(input@, pos as int).is_some(),
        r.is_some() ==> r.unwrap() == spec_sep(input@, pos as int).unwrap() && r.unwrap()
            <= input.len(),
{
    let end = scan(input, pos, ByteClass::Rule);
    if end > pos {
        Some(end)
    } else {
        None
    }
}

/// A non-empty maximal run of bytes of `class`, with the bytes it covers.
pub open spec fn spec_word(s: Seq<u8>, pos: int, class: ByteClass) -> Option<(Seq<u8>, int)> {
    let end = run_end(s, pos, class);
    if end > pos {
        Some((s.subrange(pos, end), end))
    } else {
        None
    }
}

/// Whether an executable word result is the one that the grammar gives.
pub open spec fn word_matches(r: Option<(Vec<u8>, usize)>, m: Option<(Seq<u8>, int)>) -> bool {
    match (r, m) {
        (Some((w, e)), Some((mw, me))) => w@ == mw && e == me,
        (None, None) => true,
        _ => false,
    }
}

/// Reads the longest run of bytes of `class` at `pos`, which must not be
/// empty, and copies it.
pub fn word(input: &[u8], pos: usize, class: ByteClass) -> (r: Option<(Vec<u8>, usize)>)
    requires
        pos <= input.len(),
    ensures
        word_matches(r, spec_word(input@, pos as int, class)),
        r.is_some() ==> pos < r.unwrap().1 <= input.len(),
{
    let end = scan(input, pos, class);
    if end == pos {
        return None;
    }
    let mut out: Vec<u8> = Vec::new();
    let mut i: usize = pos;
    while i < end
        invariant
            pos <= i <= end <= input.len(),
            out@ == input@.subrange(pos as int, i as int),
        decreases end - i,
    {
        out.push(input[i]);
        i += 1;
        assert(out@ =~= input@.subrange(pos as int, i as int));
    }
    Some((out, end))
}

/// An animation label: one or more alphanumeric bytes.
pub open spec fn spec_label(s: Seq<u8>, pos: int) -> Option<(Seq<u8>, int)> {
    spec_word(s, pos, ByteClass::Alnum)
}

/// Reads an animation label at `pos`.
pub fn label(input: &[u8], pos: usize) -> (r: Option<(Vec<u8>, usize)>)
    requires
        pos <= input.len(),
    ensures
        word_matches(r, spec_label(input@, pos as int)),
        r.is_some() ==> pos < r.unwrap().1 <= input.len(),
{
    word(input, pos, ByteClass::Alnum)
}

/// A frame row: one or more alphanumeric bytes or `.`.
pub open spec fn spec_pixels(s: Seq<u8>, pos: int) -> Option<(Seq<u8>, int)> {
    spec_word(s, pos, ByteClass::Pixel)
}

/// Reads one frame row at `pos`.
pub fn pixels(input: &[u8], pos: usize) -> (r: Option<(Vec<u8>, usize)>)
    requires
        pos <= input.len(),
    ensures
        word_matches(r, spec_pixels(input@, pos as int)),
        r.is_some() ==> pos < r.unwrap().1 <= input.len(),
{
    word(input, pos, ByteClass::Pixel)
}

/// The number that a sequence of decimal digits denotes.
pub open spec fn decimal(digits: Seq<u8>) -> nat
    decreases digits.len(),
{
    if digits.len() == 0 {
        0
    } else {
        decimal(digits.drop_last()) * 10 + (digits.last() - 0x30) as nat
    }
}

/// A decimal number: one or more digits whose value fits in 32 bits.
pub open spec fn spec_num(s: Seq<u8>, pos: int) -> Option<(u32, int)> {
    let end = run_end(s, pos, ByteClass::Digit);
    if end > pos && decimal(s.subrange(pos, end)) <= u32::MAX {
        Some((decimal(s.subrange(pos, end)) as u32, end))
    } else {
        None
    }
}

/// Whether an executable result with a position is the one that the grammar gives.
pub open spec fn matches_at<T>(r: Option<(T, usize)>, m: Option<(T, int)>) -> bool {
    match (r, m) {
        (Some((v, e)), Some((mv, me))) => v == mv && e == me,
        (None, None) => true,
        _ => false,
    }
}

/// Reads a decimal number at `pos`; fails where there is no digit or the
/// value does not fit in 32 bits.
pub fn num(input: &[u8], pos: usize) -> (r: Option<(u32, usize)>)
    requires
        pos <= input.len(),
    ensures
        matches_at(r, spec_num(input@, pos as int)),
        r.is_some() ==> pos < r.unwrap().1 <= input.len(),
{
    let end = scan(input, pos, ByteClass::Digit);
    if end == pos {
        return None;
    }
    proof {
        lemma_run_end(input@, pos as int, ByteClass::Digit);
    }
    let mut value: u64 = 0;
    let mut fits = true;
    let mut i: usize = pos;
    while i < end
        invariant
            pos <= i <= end <= input.len(),
            forall|k: int| pos <= k < end ==> is_digit(#[trigger] input@[k]),
            fits ==> value == decimal(input@.subrange(pos as int, i as int)) && value
                <= u32::MAX,
            !fits ==> decimal(input@.subrange(pos as int, i as int)) > u32::MAX,
        decreases end - i,
    {
        let d: u64 = (input[i] - 0x30) as u64;
        proof {
            let next = input@.subrange(pos as int, i as int + 1);
            assert(next.drop_last() =~= input@.subrange(pos as int, i as int));
            assert(next.last() == input@[i as int]);
        }
        if fits {
            value = value * 10 + d;
            if value > 0xffff_ffff {
                fits = false;
            }
        }
        i += 1;
    }
    if fits {
        Some((value as u32, end))
    } else {
        None
    }
}

/// The value of one hexadecimal digit.
pub open spec fn hex_digit_value(b: u8) -> nat {
    if is_digit(b) {
        (b - 0x30) as nat
    } else if 0x41 <= b <= 0x46 {
        (b - 0x37) as nat
    } else {
        (b - 0x57) as nat
    }
}

/// The number that a sequence of hexadecimal digits denotes.
pub open spec fn hex_value(digits: Seq<u8>) -> nat
    decreases digits.len(),
{
    if digits.len() == 0 {
        0
    } else {
        hex_value(digits.drop_last()) * 16 + hex_digit_value(digits.last())
    }
}

/// Exactly six hexadecimal digits.
pub open spec fn spec_hex6(s: Seq<u8>, pos: int) -> Option<(u32, int)> {
    if 0 <= pos && pos + 6 <= s.len() && (forall|k: int|
        pos <= k < pos + 6 ==> is_hex_digit(#[trigger] s[k])) {
        Some((hex_value(s.subrange(pos, pos + 6)) as u32, pos + 6))
    } else {
        None
    }
}

spec fn pow16(n: nat) -> nat
    decreases n,
{
    if n == 0 {
        1
    } else {
        16 * pow16((n - 1) as nat)
    }
}

/// Reads six hexadecimal digits at `pos` as one number.
pub fn hex6(input: &[u8], pos: usize) -> (r: Option<(u32, usize)>)
    requires
        pos <= input.len(),
    ensures
        matches_at(r, spec_hex6(input@, pos as int)),
        r.is_some() ==> pos < r.unwrap().1 <= input.len(),
{
    if input.len() - pos < 6 {
        return None;
    }
    let mut value: u32 = 0;
    let mut i: usize = 0;
    while i < 6
        invariant
            pos + 6 <= input.len(),
            i <= 6,
            forall|k: int| pos <= k < pos + i ==> is_hex_digit(#[trigger] input@[k]),
            value == hex_value(input@.subrange(pos as int, pos + i)),
            value < pow16(i as nat),
        decreases 6 - i,
    {
        let b: u8 = input[pos + i];
        let d: u8 = if 0x30 <= b && b <= 0x39 {
            b - 0x30
        } else if 0x41 <= b && b <= 0x46 {
            b - 0x37
        } else if 0x61 <= b && b <= 0x66 {
            b - 0x57
        } else {
            return None;
        };
        proof {
            let next = input@.subrange(pos as int, pos + i + 1);
            assert(next.drop_last() =~= input@.subrange(pos as int, pos + i));
            assert(next.last() == b);
            reveal_with_fuel(pow16, 8);
        }
        value = value * 16 + d as u32;
        i += 1;
    }
    Some((value, pos + 6))
}

} // verus!
