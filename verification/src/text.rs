//! Byte-level text primitives shared by the frame reader, the line parser and
//! the serializer: ASCII keywords, decimal numbers, and scanning for line and
//! word boundaries.
//!
//! Header text is handled as bytes throughout.  Nothing here assumes that the
//! bytes are valid UTF-8.

use vstd::prelude::*;
use vstd::slice::slice_subrange;
use vstd::string::*;

verus! {

pub const NEWLINE: u8 = 10;

pub const CARRIAGE_RETURN: u8 = 13;

pub const SPACE: u8 = 32;

/// The bytes of an ASCII text, one byte per character.
pub open spec fn ascii(s: Seq<char>) -> Seq<u8> {
    Seq::new(s.len(), |i: int| s[i] as u8)
}

/// Borrows an ASCII string as its bytes.
pub fn ascii_bytes<'a>(s: &'a str) -> (b: &'a [u8])
    requires
        vstd::string::is_ascii(s),
    ensures
        b@ == ascii(s@),
{
    broadcast use is_ascii_spec_bytes;

    s.as_bytes()
}

/// Appends all of `src` to `out`.
pub fn push_bytes(out: &mut Vec<u8>, src: &[u8])
    ensures
        final(out)@ == old(out)@ + src@,
{
    let mut i: usize = 0;
    while i < src.len()
        invariant
            i <= src.len(),
            out@ == old(out)@ + src@.subrange(0, i as int),
        decreases src.len() - i,
    {
        out.push(src[i]);
        i += 1;
    }
    assert(src@.subrange(0, src@.len() as int) == src@);
}

/// An owned copy of `src`.
pub fn to_vec(src: &[u8]) -> (v: Vec<u8>)
    ensures
        v@ == src@,
{
    let mut v: Vec<u8> = Vec::new();
    push_bytes(&mut v, src);
    v
}

/// Whether `a` and `b` hold the same bytes.
pub fn bytes_eq(a: &[u8], b: &[u8]) -> (r: bool)
    ensures
        r == (a@ == b@),
{
    if a.len() != b.len() {
        return false;
    }
    let mut i: usize = 0;
    while i < a.len()
        invariant
            i <= a.len(),
            a.len() == b.len(),
            a@.subrange(0, i as int) == b@.subrange(0, i as int),
        decreases a.len() - i,
    {
        if a[i] != b[i] {
            return false;
        }
        assert(a@.subrange(0, i + 1) == a@.subrange(0, i as int).push(a@[i as int]));
        assert(b@.subrange(0, i + 1) == b@.subrange(0, i as int).push(b@[i as int]));
        i += 1;
    }
    assert(a@.subrange(0, a@.len() as int) == a@);
    assert(b@.subrange(0, b@.len() as int) == b@);
    true
}

/// Whether `s` begins with `prefix`.
pub fn starts_with(s: &[u8], prefix: &[u8]) -> (r: bool)
    ensures
        r == prefix@.is_prefix_of(s@),
{
    if prefix.len() > s.len() {
        return false;
    }
    let head = slice_subrange(s, 0, prefix.len());
    bytes_eq(head, prefix)
}

/// The ASCII digit for `d`, which is below ten.
pub open spec fn digit(d: nat) -> u8 {
    (48 + d) as u8
}

/// An ASCII digit.
pub open spec fn is_digit(b: u8) -> bool {
    48 <= b <= 57
}

/// `n` written in decimal, without sign or leading zeros.
pub open spec fn decimal(n: nat) -> Seq<u8>
    decreases n,
{
    if n < 10 {
        seq![digit(n)]
    } else {
        decimal(n / 10).push(digit(n % 10))
    }
}

/// All of `s` are ASCII digits.
pub open spec fn all_digits(s: Seq<u8>) -> bool {
    forall|i: int| 0 <= i < s.len() ==> is_digit(#[trigger] s[i])
}

/// The number that a run of decimal digits stands for.
pub open spec fn digits_value(s: Seq<u8>) -> nat
    decreases s.len(),
{
    if s.len() == 0 {
        0
    } else {
        digits_value(s.drop_last()) * 10 + (s.last() - 48) as nat
    }
}

/// What a decimal length field holds: the digits' value where the field is
/// one or more ASCII digits and nothing else, and the value fits in `usize`.
pub open spec fn decimal_usize(s: Seq<u8>) -> Option<usize> {
    if s.len() > 0 && all_digits(s) && digits_value(s) <= usize::MAX {
        Some(digits_value(s) as usize)
    } else {
        None
    }
}

/// Appends `n` in decimal to `out`.
pub fn push_decimal(out: &mut Vec<u8>, n: u64)
    ensures
        final(out)@ == old(out)@ + decimal(n as nat),
    decreases n,
{
    if n >= 10 {
        push_decimal(out, n / 10);
    }
    let d: u8 = (n % 10) as u8;
    out.push(48 + d);
    assert(out@ == old(out)@ + decimal(n as nat));
}

/// A longer run of digits never stands for a smaller number.
pub proof fn lemma_digits_value_prefix(s: Seq<u8>, k: int)
    requires
        0 <= k <= s.len(),
        all_digits(s),
    ensures
        digits_value(s.subrange(0, k)) <= digits_value(s),
    decreases s.len() - k,
{
    if k < s.len() {
        lemma_digits_value_prefix(s, k + 1);
        let t = s.subrange(0, k + 1);
        assert(t.drop_last() == s.subrange(0, k));
        assert(is_digit(s[k]));
    } else {
        assert(s.subrange(0, k) == s);
    }
}

/// Reads a decimal length field.
pub fn parse_decimal(s: &[u8]) -> (r: Option<usize>)
    ensures
        r == decimal_usize(s@),
{
    if s.len() == 0 {
        return None;
    }
    let mut acc: usize = 0;
    let mut i: usize = 0;
    while i < s.len()
        invariant
            i <= s.len(),
            all_digits(s@.subrange(0, i as int)),
            acc == digits_value(s@.subrange(0, i as int)),
        decreases s.len() - i,
    {
        let b: u8 = s[i];
        let ghost next = s@.subrange(0, i + 1);
        assert(next.drop_last() == s@.subrange(0, i as int));
        assert(next.last() == b);
        if b < 48 || b > 57 {
            assert(!is_digit(s@[i as int]));
            return None;
        }
        assert(all_digits(next)) by {
            assert forall|j: int| 0 <= j < next.len() implies is_digit(#[trigger] next[j]) by {
                if j < i {
                    assert(next[j] == s@.subrange(0, i as int)[j]);
                }
            }
        }
        let d: usize = (b - 48) as usize;
        let grown: Option<usize> = match acc.checked_mul(10) {
            Some(m) => m.checked_add(d),
            None => None,
        };
        match grown {
            Some(v) => {
                acc = v;
            },
            None => {
                proof {
                    assert(digits_value(next) > usize::MAX);
                    if all_digits(s@) {
                        lemma_digits_value_prefix(s@, i + 1);
                    }
                }
                return None;
            },
        }
        i += 1;
    }
    assert(s@.subrange(0, s@.len() as int) == s@);
    Some(acc)
}

/// Reading back a number written by `decimal` gives the number.
pub proof fn lemma_decimal_reads_back(n: nat)
    ensures
        decimal(n).len() > 0,
        all_digits(decimal(n)),
        digits_value(decimal(n)) == n,
    decreases n,
{
    if n < 10 {
        let s = decimal(n);
        assert(s.drop_last().len() == 0);
        assert(digits_value(s.drop_last()) == 0);
    } else {
        lemma_decimal_reads_back(n / 10);
        let s = decimal(n);
        assert(s.drop_last() == decimal(n / 10));
        assert(s.last() == digit(n % 10));
    }
}

/// ASCII white space: space, tab, line feed, vertical tab, form feed and
/// carriage return.
pub open spec fn is_space(b: u8) -> bool {
    b == 32 || (9 <= b <= 13)
}

/// What a scan looks for.
#[derive(Clone, Copy, PartialEq, Eq, Debug)]
pub enum Stop {
    /// A line feed.
    Newline,
    /// A white-space byte.
    Space,
    /// A byte that is not white space.
    Word,
}

/// Whether the byte `b` is of class `c`.
pub open spec fn stops(c: Stop, b: u8) -> bool {
    match c {
        Stop::Newline => b == NEWLINE,
        Stop::Space => is_space(b),
        Stop::Word => !is_space(b),
    }
}

/// The first position at or after `from` whose byte is of class `c`, or the
/// length of `s` where there is none.
pub open spec fn scan_to(s: Seq<u8>, from: int, c: Stop) -> int
    decreases s.len() - from,
{
    if from >= s.len() {
        s.len() as int
    } else if stops(c, s[from]) {
        from
    } else {
        scan_to(s, from + 1, c)
    }
}

/// `scan_to` lies at or behind `from`, no byte ahead of it is of the class,
/// and the byte there is, unless it is the end.
pub proof fn lemma_scan_to(s: Seq<u8>, from: int, c: Stop)
    requires
        0 <= from <= s.len(),
    ensures
        from <= scan_to(s, from, c) <= s.len(),
        forall|j: int| from <= j < scan_to(s, from, c) ==> !stops(c, #[trigger] s[j]),
        scan_to(s, from, c) < s.len() ==> stops(c, s[scan_to(s, from, c)]),
    decreases s.len() - from,
{
    if from < s.len() && !stops(c, s[from]) {
        lemma_scan_to(s, from + 1, c);
    }
}

/// `scan_to` is the only position that no stop precedes and that is itself a
/// stop or the end.
pub proof fn lemma_scan_to_is(s: Seq<u8>, from: int, c: Stop, at: int)
    requires
        0 <= from <= at <= s.len(),
        forall|j: int| from <= j < at ==> !stops(c, #[trigger] s[j]),
        at < s.len() ==> stops(c, s[at]),
    ensures
        scan_to(s, from, c) == at,
    decreases at - from,
{
    if from < at {
        lemma_scan_to_is(s, from + 1, c, at);
    }
}

fn at_stop(c: Stop, b: u8) -> (r: bool)
    ensures
        r == stops(c, b),
{
    let space: bool = b == 32 || (9 <= b && b <= 13);
    match c {
        Stop::Newline => b == NEWLINE,
        Stop::Space => space,
        Stop::Word => !space,
    }
}

/// Scans forward from `from` to the first byte of class `c`.
pub fn scan(s: &[u8], from: usize, c: Stop) -> (at: usize)
    requires
        from <= s.len(),
    ensures
        at == scan_to(s@, from as int, c),
        from <= at <= s.len(),
{
    let mut i: usize = from;
    while i < s.len() && !at_stop(c, s[i])
        invariant
            from <= i <= s.len(),
            forall|j: int| from <= j < i ==> !stops(c, #[trigger] s@[j]),
        decreases s.len() - i,
    {
        i += 1;
    }
    proof {
        lemma_scan_to_is(s@, from as int, c, i as int);
    }
    i
}

/// The next word of `s` at or after `from`, and the position behind it: a
/// word is a longest run of bytes that are not white space.
pub open spec fn next_word(s: Seq<u8>, from: int) -> Option<(Seq<u8>, int)> {
    let start = scan_to(s, from, Stop::Word);
    if start < s.len() {
        let end = scan_to(s, start, Stop::Space);
        Some((s.subrange(start, end), end))
    } else {
        None
    }
}

/// Walks over the words of a line.
pub struct Words<'a> {
    text: &'a [u8],
    pos: usize,
}

/// A line and how far its words have been read.
pub struct WordsView {
    pub text: Seq<u8>,
    pub pos: int,
}

impl<'a> View for Words<'a> {
    type V = WordsView;

    closed spec fn view(&self) -> WordsView {
        WordsView { text: self.text@, pos: self.pos as int }
    }
}

impl<'a> Words<'a> {
    /// The words of `text`, none read yet.
    pub fn new(text: &'a [u8]) -> (w: Words<'a>)
        ensures
            w@ == (WordsView { text: text@, pos: 0 }),
    {
        Words { text, pos: 0 }
    }

    /// The next word, if the line has one left.
    pub fn next(&mut self) -> (word: Option<&'a [u8]>)
        ensures
            final(self)@.text == old(self)@.text,
            match next_word(old(self)@.text, old(self)@.pos) {
                Some((w, end)) => word matches Some(found) && found@ == w && final(self)@.pos
                    == end,
                None => word is None && final(self)@.pos == old(self)@.pos,
            },
    {
        if self.pos >= self.text.len() {
            return None;
        }
        let start: usize = scan(self.text, self.pos, Stop::Word);
        if start < self.text.len() {
            let end: usize = scan(self.text, start, Stop::Space);
            self.pos = end;
            Some(slice_subrange(self.text, start, end))
        } else {
            None
        }
    }
}

/// The line of `text` that begins at `pos`, and where the next line begins.
/// A line ends at a line feed or at the end of the text; the line feed, and
/// a carriage return right ahead of it, are not part of the line.
pub open spec fn next_line(text: Seq<u8>, pos: int) -> (Seq<u8>, int) {
    let end = scan_to(text, pos, Stop::Newline);
    if end < text.len() {
        if pos < end && text[end - 1] == CARRIAGE_RETURN {
            (text.subrange(pos, end - 1), end + 1)
        } else {
            (text.subrange(pos, end), end + 1)
        }
    } else {
        (text.subrange(pos, end), end)
    }
}

/// Cuts the line that begins at `pos` out of `text`.
pub fn read_line<'a>(text: &'a [u8], pos: usize) -> (r: (&'a [u8], usize))
    requires
        pos < text.len(),
    ensures
        (r.0@, r.1 as int) == next_line(text@, pos as int),
        pos < r.1 <= text.len(),
{
    let end: usize = scan(text, pos, Stop::Newline);
    if end < text.len() {
        if pos < end && text[end - 1] == CARRIAGE_RETURN {
            (slice_subrange(text, pos, end - 1), end + 1)
        } else {
            (slice_subrange(text, pos, end), end + 1)
        }
    } else {
        (slice_subrange(text, pos, end), end)
    }
}

/// Whether `word` is the ASCII text `keyword`.
pub fn is_word(word: &[u8], keyword: &str) -> (r: bool)
    requires
        vstd::string::is_ascii(keyword),
    ensures
        r == (word@ == ascii(keyword@)),
{
    bytes_eq(word, ascii_bytes(keyword))
}

} // verus!
