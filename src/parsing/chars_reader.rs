use vstd::prelude::*;
use vstd::utf8::{decode_utf8, valid_utf8};

verus! {

/// Decodes UTF-8 text from bytes, one character at a time.
pub struct CharReader {
    inner: Vec<u8>,
    pos: usize,
}

/// A byte sequence that is not UTF-8.
#[derive(Debug, Clone, Copy, PartialEq, Eq)]
pub enum CharReaderError {
    NotUtf8,
}

/// The length of the UTF-8 sequence that a leading byte announces; 0 for a
/// byte that cannot lead one.
pub open spec fn utf8_width(b: u8) -> nat {
    if b < 0x80 {
        1
    } else if b < 0xC2 {
        0
    } else if b < 0xE0 {
        2
    } else if b < 0xF0 {
        3
    } else if b < 0xF5 {
        4
    } else {
        0
    }
}

fn utf8_char_width(b: u8) -> (r: usize)
    ensures
        r == utf8_width(b),
{
    if b < 0x80 {
        1
    } else if b < 0xC2 {
        0
    } else if b < 0xE0 {
        2
    } else if b < 0xF0 {
        3
    } else if b < 0xF5 {
        4
    } else {
        0
    }
}

/// Relies on std's `str::from_utf8`: the text the bytes encode when they are
/// valid UTF-8, `None` otherwise.
#[verifier::external_body]
fn utf8_text(b: &[u8]) -> (r: Option<&str>)
    ensures
        r is Some <==> valid_utf8(b@),
        r matches Some(s) ==> s@ == decode_utf8(b@),
{
    std::str::from_utf8(b).ok()
}

/// What `next` makes of the bytes `b` that are left: the character, or
/// `NotUtf8`, and how many bytes it consumes.
pub open spec fn read_spec(b: Seq<u8>) -> (Result<char, CharReaderError>, nat)
    recommends
        b.len() > 0,
{
    let w = utf8_width(b[0]);
    if w == 1 {
        (Ok(b[0] as char), 1)
    } else if w == 0 {
        (Err(CharReaderError::NotUtf8), 1)
    } else if b.len() < w {
        (Err(CharReaderError::NotUtf8), b.len())
    } else if valid_utf8(b.take(w as int)) {
        (Ok(decode_utf8(b.take(w as int))[0]), w)
    } else {
        (Err(CharReaderError::NotUtf8), w)
    }
}

/// The characters that `next` yields from the bytes `b` until the end or the
/// first byte sequence that is not UTF-8, and whether such a sequence stopped it.
pub open spec fn decoded(b: Seq<u8>) -> (Seq<char>, bool)
    decreases b.len(),
{
    if b.len() == 0 {
        (seq![], false)
    } else {
        let (r, k) = read_spec(b);
        if k == 0 || k > b.len() {
            (seq![], true)
        } else {
            match r {
                Ok(c) => {
                    let (rest, fault) = decoded(b.skip(k as int));
                    (seq![c] + rest, fault)
                },
                Err(_) => (seq![], true),
            }
        }
    }
}

impl CharReader {
    /// A reader at the start of the bytes.
    pub fn new(inner: Vec<u8>) -> (r: CharReader)
        ensures
            r.wf(),
            r.remaining() == inner@.len(),
            r.rest() == inner@,
    {
        let r = CharReader { inner, pos: 0 };
        proof {
            assert(r.rest() =~= r.inner@);
        }
        r
    }

    /// The position lies within the bytes.
    pub closed spec fn wf(&self) -> bool {
        self.pos <= self.inner@.len()
    }

    /// How many bytes are left.
    pub closed spec fn remaining(&self) -> nat {
        (self.inner@.len() - self.pos) as nat
    }

    /// The bytes that are left.
    pub closed spec fn rest(&self) -> Seq<u8> {
        self.inner@.subrange(self.pos as int, self.inner@.len() as int)
    }

    /// The next character, an error for a byte sequence that is not UTF-8
    /// (its leading byte is passed over), or `None` at the end. Every call
    /// that returns something consumes at least one byte.
    pub fn next(&mut self) -> (r: Option<Result<char, CharReaderError>>)
        requires
            old(self).wf(),
        ensures
            final(self).wf(),
            r is None <==> old(self).remaining() == 0,
            r is Some ==> final(self).remaining() < old(self).remaining(),
            r is None ==> final(self).remaining() == old(self).remaining(),
            old(self).rest().len() == old(self).remaining(),
            old(self).rest().len() > 0 ==> r == Some(read_spec(old(self).rest()).0) && final(self).rest()
                == old(self).rest().skip(read_spec(old(self).rest()).1 as int),
    {
        let len = self.inner.len();
        let first_byte = match read_one_byte(&self.inner, self.pos) {
            Some(b) => b,
            None => return None,
        };
        let ghost rest = self.rest();
        proof {
            assert(rest[0] == first_byte);
        }
        self.pos = self.pos + 1;
        let width = utf8_char_width(first_byte);
        if width == 1 {
            proof {
                assert(self.rest() =~= rest.skip(1));
            }
            return Some(Ok(first_byte as char));
        }
        if width == 0 {
            proof {
                assert(self.rest() =~= rest.skip(1));
            }
            return Some(Err(CharReaderError::NotUtf8));
        }
        let start = self.pos - 1;
        if len - start < width {
            self.pos = len;
            proof {
                assert(self.rest() =~= rest.skip(rest.len() as int));
            }
            return Some(Err(CharReaderError::NotUtf8));
        }
        let mut buf: Vec<u8> = Vec::new();
        let mut i: usize = 0;
        while i < width
            invariant
                i <= width,
                width <= 4,
                start + width <= len,
                len == self.inner@.len(),
                buf@.len() == i,
                start < len,
                rest == self.inner@.subrange(start as int, len as int),
                buf@ == rest.take(i as int),
            decreases width - i,
        {
            buf.push(self.inner[start + i]);
            proof {
                assert(buf@ =~= rest.take(i + 1));
            }
            i += 1;
        }
        self.pos = start + width;
        proof {
            assert(self.rest() =~= rest.skip(width as int));
        }
        match utf8_text(buf.as_slice()) {
            Some(text) => {
                let mut chars = text.chars();
                match chars.next() {
                    Some(c) => Some(Ok(c)),
                    None => Some(Err(CharReaderError::NotUtf8)),
                }
            },
            None => Some(Err(CharReaderError::NotUtf8)),
        }
    }
}

/// The byte at `pos`, if there is one.
fn read_one_byte(bytes: &Vec<u8>, pos: usize) -> (r: Option<u8>)
    ensures
        pos < bytes@.len() ==> r == Some(bytes@[pos as int]),
        pos >= bytes@.len() ==> r is None,
{
    if pos < bytes.len() {
        Some(bytes[pos])
    } else {
        None
    }
}

} // verus!
