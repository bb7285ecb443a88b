//! Parsing of the request line of the HTTP front end: `GET /<p>/<word>?o=N&l=M`.
//!
//! The path before the first `/` names the request (up to four bytes kept);
//! the word after it is percent-decoded; after `?`, `o=` accumulates decimal
//! digits of the offset (`o=-` makes them count down) and `l=` those of the
//! length. A byte that does not fit an argument turns the rest of the line
//! back into word bytes.
use vstd::prelude::*;
use vstd::wrapping::{i32_specs, usize_specs};

verus! {

/// What the request line has given so far, with the parser's state: at 0 and
/// above the position in the path; -1 the word; -2 and -3 the two hex digits
/// of a `%` escape; -4 an argument name; -5 an argument value; -32768 after
/// a byte that fits no argument.
pub struct UrlModel {
    pub state: i16,
    pub key: u8,
    pub path: Seq<u8>,
    pub word: Seq<u8>,
    pub offset: i32,
    pub length: usize,
}

/// The value of a hex digit; other bytes are kept.
pub open spec fn hex_value(b: u8) -> u8 {
    if 48 <= b && b <= 57 {
        (b - 48) as u8
    } else if 65 <= b && b <= 70 {
        (b - 55) as u8
    } else if 97 <= b && b <= 102 {
        (b - 87) as u8
    } else {
        b
    }
}

/// One more decimal digit of the offset.
pub open spec fn more_offset(o: i32, c: i32) -> i32 {
    i32_specs::wrapping_add(i32_specs::wrapping_mul(o, 10), c)
}

/// One more decimal digit of the length.
pub open spec fn more_length(l: usize, c: usize) -> usize {
    usize_specs::wrapping_add(usize_specs::wrapping_mul(l, 10), c)
}

/// The model after byte `c` of the request path.
pub open spec fn url_step(m: UrlModel, c: u8) -> UrlModel {
    if m.state < 0 {
        if c == 37 {
            UrlModel { state: -2i16, ..m }
        } else if c == 63 {
            UrlModel { state: -4i16, ..m }
        } else if m.state == -2 {
            UrlModel { state: -3i16, key: ((hex_value(c) % 16) * 16) as u8, ..m }
        } else if m.state == -3 {
            UrlModel { state: -1i16, word: m.word.push(m.key | hex_value(c)), key: m.key | hex_value(c), ..m }
        } else if m.state == -4 {
            if c == 61 {
                UrlModel { state: -5i16, ..m }
            } else {
                UrlModel { key: c, ..m }
            }
        } else if m.state == -5 {
            if c == 38 {
                UrlModel { state: -4i16, ..m }
            } else if c == 45 {
                if m.key == 111 {
                    UrlModel { key: 79, ..m }
                } else {
                    UrlModel { state: -32768i16, ..m }
                }
            } else if 48 <= c && c <= 57 {
                if m.key == 111 {
                    UrlModel { offset: more_offset(m.offset, (c - 48) as i32), ..m }
                } else if m.key == 79 {
                    UrlModel { offset: more_offset(m.offset, (48 - c) as i32), ..m }
                } else if m.key == 108 {
                    UrlModel { length: more_length(m.length, (c - 48) as usize), ..m }
                } else {
                    m
                }
            } else {
                UrlModel { state: -32768i16, ..m }
            }
        } else {
            UrlModel { word: m.word.push(c), ..m }
        }
    } else if c == 47 {
        UrlModel { state: -1i16, ..m }
    } else {
        UrlModel {
            path: if m.state < 4 {
                m.path.update(m.state as int, c)
            } else {
                m.path
            },
            state: if m.state < 32767 {
                (m.state + 1) as i16
            } else {
                m.state
            },
            ..m
        }
    }
}

/// The model after the bytes `bs`.
pub open spec fn url_parse(bs: Seq<u8>) -> UrlModel
    decreases bs.len(),
{
    if bs.len() == 0 {
        UrlModel { state: 0i16, key: 0u8, path: seq![0u8, 0u8, 0u8, 0u8], word: Seq::empty(), offset: 0i32, length: 0usize }
    } else {
        url_step(url_parse(bs.drop_last()), bs.last())
    }
}

/// The position of the first space in `b` from `i` on, or its length.
pub open spec fn first_space(b: Seq<u8>, i: int) -> int
    decreases b.len() - i,
{
    if i >= b.len() {
        b.len() as int
    } else if b[i] == 32 {
        i
    } else {
        first_space(b, i + 1)
    }
}

/// `GET /`.
pub open spec fn get_prefix() -> Seq<u8> {
    seq![71u8, 69, 84, 32, 47]
}

/// What the front end does for a request path.
pub struct StardictUrl {
    pub path: [u8; 4],
    pub word: Vec<u8>,
    pub offset: i32,
    pub length: usize,
}

impl StardictUrl {
    /// The request read so far, in parser state `state` with argument `key`.
    pub open spec fn model(&self, state: i16, key: u8) -> UrlModel {
        UrlModel { state, key, path: self.path@, word: self.word@, offset: self.offset, length: self.length }
    }

    /// An empty request.
    pub fn new() -> (r: StardictUrl)
        ensures
            r.model(0, 0) == url_parse(Seq::empty()),
    {
        let r = StardictUrl { path: [0u8; 4], word: Vec::new(), offset: 0, length: 0 };
        assert(r.path@ =~= seq![0u8, 0u8, 0u8, 0u8]);
        r
    }

    /// The value of a hex digit; other bytes are kept.
    pub fn byte_to_u8(b: u8) -> (r: u8)
        ensures
            r == hex_value(b),
    {
        if b >= 48 && b <= 57 {
            b - 48
        } else if b >= 65 && b <= 70 {
            b - 55
        } else if b >= 97 && b <= 102 {
            b - 87
        } else {
            b
        }
    }

    /// Sets path byte `idx`, if the path has room for it.
    pub fn add_path(&mut self, c: u8, idx: usize)
        ensures
            final(self).path@ == if idx < 4 {
                old(self).path@.update(idx as int, c)
            } else {
                old(self).path@
            },
            final(self).word == old(self).word,
            final(self).offset == old(self).offset,
            final(self).length == old(self).length,
    {
        if idx < 4 {
            self.path[idx] = c;
        }
    }

    /// Adds a byte to the word.
    pub fn add_byte(&mut self, c: u8)
        ensures
            final(self).word@ == old(self).word@.push(c),
            final(self).path == old(self).path,
            final(self).offset == old(self).offset,
            final(self).length == old(self).length,
    {
        self.word.push(c);
    }

    /// Adds a decimal digit to the offset, wrapping on overflow.
    pub fn add_arg_offset(&mut self, c: i32)
        ensures
            final(self).offset == more_offset(old(self).offset, c),
            final(self).word == old(self).word,
            final(self).path == old(self).path,
            final(self).length == old(self).length,
    {
        self.offset = self.offset.wrapping_mul(10).wrapping_add(c);
    }

    /// Adds a decimal digit to the length, wrapping on overflow.
    pub fn add_arg_length(&mut self, c: usize)
        ensures
            final(self).length == more_length(old(self).length, c),
            final(self).word == old(self).word,
            final(self).path == old(self).path,
            final(self).offset == old(self).offset,
    {
        self.length = self.length.wrapping_mul(10).wrapping_add(c);
    }

    /// Reads one byte of the request path.
    fn feed(&mut self, state: &mut i16, key: &mut u8, c: u8)
        ensures
            final(self).model(*final(state), *final(key)) == url_step(old(self).model(*old(state), *old(key)), c),
    {
        let ghost m = self.model(*state, *key);
        if *state < 0 {
            if c == 37 {
                *state = -2;
            } else if c == 63 {
                *state = -4;
            } else if *state == -2 {
                *key = (StardictUrl::byte_to_u8(c) % 16) * 16;
                *state = -3;
            } else if *state == -3 {
                *key = *key | StardictUrl::byte_to_u8(c);
                self.add_byte(*key);
                *state = -1;
            } else if *state == -4 {
                if c == 61 {
                    *state = -5;
                } else {
                    *key = c;
                }
            } else if *state == -5 {
                if c == 38 {
                    *state = -4;
                } else if c == 45 {
                    if *key == 111 {
                        *key = 79;
                    } else {
                        *state = -32768;
                    }
                } else if c >= 48 && c <= 57 {
                    let v = (c - 48) as i32;
                    if *key == 111 {
                        self.add_arg_offset(v);
                    } else if *key == 79 {
                        self.add_arg_offset(-v);
                    } else if *key == 108 {
                        self.add_arg_length(v as usize);
                    }
                } else {
                    *state = -32768;
                }
            } else {
                self.add_byte(c);
            }
        } else if c == 47 {
            *state = -1;
        } else {
            self.add_path(c, *state as usize);
            if *state < 32767 {
                *state = *state + 1;
            }
        }
        assert(self.model(*state, *key) =~~= url_step(m, c));
    }

    /// Parses a request: `None` unless it starts with `GET /`; otherwise the
    /// path up to the first space, with a length of 10 where none was given.
    pub fn request(buffer: &[u8]) -> (r: Option<StardictUrl>)
        ensures
            buffer@.len() < 5 || buffer@.subrange(0, 5) != get_prefix() ==> r is None,
            buffer@.len() >= 5 && buffer@.subrange(0, 5) == get_prefix() ==> (r matches Some(u) && {
                let m = url_parse(buffer@.subrange(5, first_space(buffer@, 5)));
                &&& u.path@ == m.path
                &&& u.word@ == m.word
                &&& u.offset == m.offset
                &&& u.length == if m.length == 0 { 10 } else { m.length }
            }),
    {
        if buffer.len() < 5 || buffer[0] != 71 || buffer[1] != 69 || buffer[2] != 84 || buffer[3] != 32 || buffer[4] != 47 {
            proof {
                if buffer@.len() >= 5 {
                    assert(buffer@.subrange(0, 5)[0] == buffer@[0]);
                    assert(buffer@.subrange(0, 5)[1] == buffer@[1]);
                    assert(buffer@.subrange(0, 5)[2] == buffer@[2]);
                    assert(buffer@.subrange(0, 5)[3] == buffer@[3]);
                    assert(buffer@.subrange(0, 5)[4] == buffer@[4]);
                }
            }
            return None;
        }
        assert(buffer@.subrange(0, 5) =~= get_prefix());
        let mut u = StardictUrl::new();
        let mut state: i16 = 0;
        let mut key: u8 = 0;
        let mut i: usize = 5;
        while i < buffer.len() && buffer[i] != 32
            invariant
                5 <= i <= buffer@.len(),
                first_space(buffer@, 5) == first_space(buffer@, i as int),
                u.model(state, key) == url_parse(buffer@.subrange(5, i as int)),
            decreases buffer@.len() - i,
        {
            assert(buffer@.subrange(5, i + 1).drop_last() =~= buffer@.subrange(5, i as int));
            u.feed(&mut state, &mut key, buffer[i]);
            i = i + 1;
        }
        assert(first_space(buffer@, i as int) == i);
        if u.length == 0 {
            u.length = 10;
        }
        Some(u)
    }
}

/// `b` ends with an empty line: `\n\n` or `\r\n\r\n`.
pub open spec fn header_ends(b: Seq<u8>) -> bool {
    let n = b.len() as int;
    (n >= 2 && b[n - 1] == 10 && b[n - 2] == 10) || (n >= 4 && b[n - 1] == 10 && b[n - 2] == 13
        && b[n - 3] == 10 && b[n - 4] == 13)
}

/// Whether the request header that `buffer` holds is complete.
pub fn header_complete(buffer: &[u8]) -> (r: bool)
    ensures
        r == header_ends(buffer@),
{
    let n = buffer.len();
    if n >= 2 && buffer[n - 1] == 10 && buffer[n - 2] == 10 {
        return true;
    }
    n >= 4 && buffer[n - 1] == 10 && buffer[n - 2] == 13 && buffer[n - 3] == 10 && buffer[n - 4] == 13
}

/// The kinds of static files the front end serves.
#[derive(PartialEq, Eq, Structural, Clone, Copy, Debug)]
pub enum ContentType {
    Javascript,
    Css,
    Jpeg,
    Png,
    Html,
}

/// The bytes of `f` after its last `.`, or all of `f`.
pub open spec fn extension(f: Seq<u8>) -> Seq<u8>
    decreases f.len(),
{
    if f.len() == 0 {
        f
    } else if f.last() == 46 {
        Seq::empty()
    } else {
        extension(f.drop_last()).push(f.last())
    }
}

/// The content type of a file by its extension: `js`, `css`, `jpg`, `png`,
/// and HTML for any other.
pub open spec fn type_of(ext: Seq<u8>) -> ContentType {
    if ext == seq![106u8, 115] {
        ContentType::Javascript
    } else if ext == seq![99u8, 115, 115] {
        ContentType::Css
    } else if ext == seq![106u8, 112, 103] {
        ContentType::Jpeg
    } else if ext == seq![112u8, 110, 103] {
        ContentType::Png
    } else {
        ContentType::Html
    }
}

/// The content type of the file `f`.
pub fn map_by_file(f: &[u8]) -> (r: ContentType)
    ensures
        r == type_of(extension(f@)),
{
    let mut i: usize = f.len();
    assert(f@.subrange(0, i as int) =~= f@);
    assert(extension(f@) + f@.subrange(i as int, i as int) =~= extension(f@));
    while i > 0 && f[i - 1] != 46
        invariant
            0 <= i <= f@.len(),
            extension(f@) == extension(f@.subrange(0, i as int)) + f@.subrange(i as int, f@.len() as int),
        decreases i,
    {
        assert(f@.subrange(0, i as int).drop_last() =~= f@.subrange(0, i - 1));
        assert(extension(f@.subrange(0, i - 1)).push(f@[i - 1]) + f@.subrange(i as int, f@.len() as int) =~= extension(f@.subrange(0, i - 1)) + f@.subrange(i - 1, f@.len() as int));
        i = i - 1;
    }
    let ext = &f[i..f.len()];
    proof {
        if i == 0 {
            assert(extension(f@.subrange(0, 0)) =~= Seq::<u8>::empty());
        } else {
            assert(extension(f@.subrange(0, i as int)) =~= Seq::<u8>::empty());
        }
        assert(extension(f@) =~= ext@);
    }
    if ext.len() == 2 && ext[0] == 106 && ext[1] == 115 {
        assert(ext@ =~= seq![106u8, 115]);
        ContentType::Javascript
    } else if ext.len() == 3 && ext[0] == 99 && ext[1] == 115 && ext[2] == 115 {
        assert(ext@ =~= seq![99u8, 115, 115]);
        ContentType::Css
    } else if ext.len() == 3 && ext[0] == 106 && ext[1] == 112 && ext[2] == 103 {
        assert(ext@ =~= seq![106u8, 112, 103]);
        ContentType::Jpeg
    } else if ext.len() == 3 && ext[0] == 112 && ext[1] == 110 && ext[2] == 103 {
        assert(ext@ =~= seq![112u8, 110, 103]);
        ContentType::Png
    } else {
        ContentType::Html
    }
}

} // verus!
