//! The metadata file (`.ifo`): one `key=value` per line.
use vstd::prelude::*;
use vstd::slice::slice_to_vec;
use vstd::utf8::{decode_utf8, valid_utf8};

use crate::pattern::utf8_string;
use crate::result::DictError;

verus! {

/// The keys of an `.ifo` file that this library reads.
#[derive(PartialEq, Eq, Structural, Clone, Copy, Debug)]
pub enum Field {
    /// `author`
    Author,
    /// `bookname`
    Name,
    /// `description`
    Description,
    /// `date`
    Date,
    /// `version`
    Version,
    /// `email`
    Email,
    /// `website`
    WebSite,
    /// `sametypesequence`
    SameTypeSequence,
    /// `idxfilesize`
    IdxFileSize,
    /// `wordcount`
    WordCount,
    /// `synwordcount`
    SynWordCount,
    /// `idxoffsetbits`
    IdxOffsetBits,
    /// Any other key.
    Other,
}

/// The field that key `k` names.
pub open spec fn field_of(k: Seq<u8>) -> Field {
    if k == seq![97, 117, 116, 104, 111, 114u8] {
        Field::Author
    } else if k == seq![98, 111, 111, 107, 110, 97, 109, 101u8] {
        Field::Name
    } else if k == seq![100, 101, 115, 99, 114, 105, 112, 116, 105, 111, 110u8] {
        Field::Description
    } else if k == seq![100, 97, 116, 101u8] {
        Field::Date
    } else if k == seq![118, 101, 114, 115, 105, 111, 110u8] {
        Field::Version
    } else if k == seq![101, 109, 97, 105, 108u8] {
        Field::Email
    } else if k == seq![119, 101, 98, 115, 105, 116, 101u8] {
        Field::WebSite
    } else if k == seq![115, 97, 109, 101, 116, 121, 112, 101, 115, 101, 113, 117, 101, 110, 99, 101u8] {
        Field::SameTypeSequence
    } else if k == seq![105, 100, 120, 102, 105, 108, 101, 115, 105, 122, 101u8] {
        Field::IdxFileSize
    } else if k == seq![119, 111, 114, 100, 99, 111, 117, 110, 116u8] {
        Field::WordCount
    } else if k == seq![115, 121, 110, 119, 111, 114, 100, 99, 111, 117, 110, 116u8] {
        Field::SynWordCount
    } else if k == seq![105, 100, 120, 111, 102, 102, 115, 101, 116, 98, 105, 116, 115u8] {
        Field::IdxOffsetBits
    } else {
        Field::Other
    }
}

/// Whether the field holds a number.
pub open spec fn is_numeric(f: Field) -> bool {
    f == Field::IdxFileSize || f == Field::WordCount || f == Field::SynWordCount || f
        == Field::IdxOffsetBits
}

/// Whether the field holds text.
pub open spec fn is_text(f: Field) -> bool {
    !is_numeric(f) && f != Field::Other
}

fn eq_bytes(a: &[u8], b: &[u8]) -> (r: bool)
    ensures
        r == (a@ == b@),
{
    if a.len() != b.len() {
        return false;
    }
    let mut i: usize = 0;
    while i < a.len()
        invariant
            a@.len() == b@.len(),
            0 <= i <= a@.len(),
            forall|j: int| 0 <= j < i ==> a@[j] == b@[j],
        decreases a@.len() - i,
    {
        if a[i] != b[i] {
            return false;
        }
        i = i + 1;
    }
    assert(a@ =~= b@);
    true
}

/// The field that key `k` names.
fn field_for(k: &[u8]) -> (r: Field)
    ensures
        r == field_of(k@),
{
    if eq_bytes(k, [97, 117, 116, 104, 111, 114u8].as_slice()) {
        Field::Author
    } else if eq_bytes(k, [98, 111, 111, 107, 110, 97, 109, 101u8].as_slice()) {
        Field::Name
    } else if eq_bytes(k, [100, 101, 115, 99, 114, 105, 112, 116, 105, 111, 110u8].as_slice()) {
        Field::Description
    } else if eq_bytes(k, [100, 97, 116, 101u8].as_slice()) {
        Field::Date
    } else if eq_bytes(k, [118, 101, 114, 115, 105, 111, 110u8].as_slice()) {
        Field::Version
    } else if eq_bytes(k, [101, 109, 97, 105, 108u8].as_slice()) {
        Field::Email
    } else if eq_bytes(k, [119, 101, 98, 115, 105, 116, 101u8].as_slice()) {
        Field::WebSite
    } else if eq_bytes(k, [115, 97, 109, 101, 116, 121, 112, 101, 115, 101, 113, 117, 101, 110, 99, 101u8].as_slice()) {
        Field::SameTypeSequence
    } else if eq_bytes(k, [105, 100, 120, 102, 105, 108, 101, 115, 105, 122, 101u8].as_slice()) {
        Field::IdxFileSize
    } else if eq_bytes(k, [119, 111, 114, 100, 99, 111, 117, 110, 116u8].as_slice()) {
        Field::WordCount
    } else if eq_bytes(k, [115, 121, 110, 119, 111, 114, 100, 99, 111, 117, 110, 116u8].as_slice()) {
        Field::SynWordCount
    } else if eq_bytes(k, [105, 100, 120, 111, 102, 102, 115, 101, 116, 98, 105, 116, 115u8].as_slice()) {
        Field::IdxOffsetBits
    } else {
        Field::Other
    }
}

/// An ASCII decimal digit.
pub open spec fn is_digit(b: u8) -> bool {
    48 <= b && b <= 57
}

/// The value of a string of decimal digits.
pub open spec fn digits_value(s: Seq<u8>) -> int
    decreases s.len(),
{
    if s.len() == 0 {
        0
    } else {
        digits_value(s.drop_last()) * 10 + (s.last() - 48)
    }
}

/// The digits of a number: `s` without one leading `+`.
pub open spec fn digits_of(s: Seq<u8>) -> Seq<u8> {
    if s.len() > 0 && s[0] == 43 {
        s.drop_first()
    } else {
        s
    }
}

/// `s` is a decimal number that fits a `usize`: an optional `+` and at least
/// one digit.
pub open spec fn parses(s: Seq<u8>) -> bool {
    let d = digits_of(s);
    &&& d.len() > 0
    &&& forall|i: int| 0 <= i < d.len() ==> is_digit(#[trigger] d[i])
    &&& digits_value(d) <= usize::MAX
}

proof fn lemma_digits_nonneg(s: Seq<u8>)
    requires
        forall|i: int| 0 <= i < s.len() ==> is_digit(#[trigger] s[i]),
    ensures
        digits_value(s) >= 0,
    decreases s.len(),
{
    if s.len() > 0 {
        lemma_digits_nonneg(s.drop_last());
    }
}

proof fn lemma_digits_monotone(s: Seq<u8>, n: int)
    requires
        0 <= n <= s.len(),
        forall|i: int| 0 <= i < s.len() ==> is_digit(#[trigger] s[i]),
    ensures
        digits_value(s.subrange(0, n)) <= digits_value(s),
    decreases s.len(),
{
    if n == s.len() {
        assert(s.subrange(0, n) =~= s);
    } else {
        lemma_digits_monotone(s.drop_last(), n);
        assert(s.drop_last().subrange(0, n) =~= s.subrange(0, n));
        lemma_digits_nonneg(s.drop_last());
    }
}

/// Reads a decimal `usize` as `str::parse` does: an optional `+`, then digits.
pub fn parse_usize(s: &[u8]) -> (r: Option<usize>)
    ensures
        r is Some <==> parses(s@),
        r matches Some(v) ==> v == digits_value(digits_of(s@)),
{
    let start: usize = if s.len() > 0 && s[0] == 43 {
        1
    } else {
        0
    };
    let ghost d = digits_of(s@);
    assert(d =~= s@.subrange(start as int, s@.len() as int));
    if start >= s.len() {
        return None;
    }
    let mut acc: usize = 0;
    let mut i: usize = start;
    while i < s.len()
        invariant
            start <= i <= s@.len(),
            d == digits_of(s@),
            d =~= s@.subrange(start as int, s@.len() as int),
            forall|j: int| 0 <= j < i - start ==> is_digit(#[trigger] d[j]),
            acc == digits_value(d.subrange(0, i - start)),
        decreases s@.len() - i,
    {
        let c = s[i];
        assert(d.subrange(0, i - start + 1).drop_last() =~= d.subrange(0, i - start));
        assert(d[i - start] == c);
        assert(d.subrange(0, i - start + 1).last() == c);
        let ghost k = i - start;
        if c < 48 || c > 57 {
            proof {
                if parses(s@) {
                    assert(is_digit(d[k]));
                }
            }
            return None;
        }
        match acc.checked_mul(10) {
            None => {
                proof {
                    assert(digits_value(d.subrange(0, k + 1)) == acc * 10 + (c - 48));
                    assert(acc * 10 > usize::MAX);
                    if parses(s@) {
                        lemma_digits_monotone(d, k + 1);
                    }
                }
                return None;
            },
            Some(m) => match m.checked_add((c - 48) as usize) {
                None => {
                    proof {
                        assert(digits_value(d.subrange(0, k + 1)) == m + (c - 48));
                        if parses(s@) {
                            lemma_digits_monotone(d, k + 1);
                        }
                    }
                    return None;
                },
                Some(v) => {
                    acc = v;
                },
            },
        }
        i = i + 1;
    }
    assert(d.subrange(0, i - start) =~= d);
    Some(acc)
}

/// The lines of `c` from `i` on, as `BufRead::lines` gives them: split at
/// `\n`, a `\r` before the `\n` dropped, no last empty line.
pub open spec fn text_lines_from(c: Seq<u8>, ls: int, i: int) -> Seq<Seq<u8>>
    decreases c.len() - i,
{
    if i >= c.len() {
        if ls < c.len() {
            seq![c.subrange(ls, c.len() as int)]
        } else {
            Seq::empty()
        }
    } else if c[i] == 10 {
        seq![strip_cr(c.subrange(ls, i))] + text_lines_from(c, i + 1, i + 1)
    } else {
        text_lines_from(c, ls, i + 1)
    }
}

/// `s` without one trailing `\r`.
pub open spec fn strip_cr(s: Seq<u8>) -> Seq<u8> {
    if s.len() > 0 && s.last() == 13 {
        s.drop_last()
    } else {
        s
    }
}

/// The position of the first `=` in `l` from `i` on, or -1.
pub open spec fn first_eq(l: Seq<u8>, i: int) -> int
    decreases l.len() - i,
{
    if i >= l.len() {
        -1
    } else if l[i] == 61 {
        i
    } else {
        first_eq(l, i + 1)
    }
}

/// A line with an `=` is the key before it and the value after it.
pub open spec fn key_value(l: Seq<u8>) -> Option<(Seq<u8>, Seq<u8>)> {
    let p = first_eq(l, 0);
    if p < 0 {
        None
    } else {
        Some((l.subrange(0, p), l.subrange(p + 1, l.len() as int)))
    }
}

/// The line sets a numeric field to `v`, which is not a number.
pub open spec fn bad_number(l: Seq<u8>, v: Seq<u8>) -> bool {
    key_value(l) matches Some((k, x)) && x == v && is_numeric(field_of(k)) && !parses(v)
}

/// The line sets a text field to bytes that are not UTF-8.
pub open spec fn bad_text(l: Seq<u8>) -> bool {
    key_value(l) matches Some((k, x)) && is_text(field_of(k)) && !valid_utf8(x)
}

/// The line's value can be read: a number for a numeric field, UTF-8 text for
/// a text field.
pub open spec fn line_ok(l: Seq<u8>) -> bool {
    match key_value(l) {
        Some((k, v)) => (is_numeric(field_of(k)) ==> parses(v)) && (is_text(field_of(k))
            ==> valid_utf8(v)),
        None => true,
    }
}

/// The value of the last line that sets field `f`.
pub open spec fn last_value(lines: Seq<Seq<u8>>, f: Field) -> Option<Seq<u8>>
    decreases lines.len(),
{
    if lines.len() == 0 {
        None
    } else {
        match key_value(lines.last()) {
            Some((k, v)) if field_of(k) == f => Some(v),
            _ => last_value(lines.drop_last(), f),
        }
    }
}

/// A text field: the decoded last value, or empty.
pub open spec fn text_field(lines: Seq<Seq<u8>>, f: Field) -> Seq<char> {
    match last_value(lines, f) {
        Some(v) => decode_utf8(v),
        None => Seq::empty(),
    }
}

/// A numeric field: the last value, or `default`.
pub open spec fn number_field(lines: Seq<Seq<u8>>, f: Field, default: int) -> int {
    match last_value(lines, f) {
        Some(v) => digits_value(digits_of(v)),
        None => default,
    }
}

/// The metadata of a dictionary.
#[derive(Debug)]
pub struct Ifo {
    pub author: String,
    pub version: String,
    pub name: String,
    pub date: String,
    pub description: String,
    pub email: String,
    pub web_site: String,
    pub same_type_sequence: String,
    pub dict_path: String,
    pub idx_file_size: usize,
    pub word_count: usize,
    pub syn_word_count: usize,
    pub idxoffsetbits: usize,
}

impl Ifo {
    /// The fields are those that `lines` set, the last line of a key winning.
    pub open spec fn read_from(&self, lines: Seq<Seq<u8>>) -> bool {
        &&& self.author@ == text_field(lines, Field::Author)
        &&& self.version@ == text_field(lines, Field::Version)
        &&& self.name@ == text_field(lines, Field::Name)
        &&& self.date@ == text_field(lines, Field::Date)
        &&& self.description@ == text_field(lines, Field::Description)
        &&& self.email@ == text_field(lines, Field::Email)
        &&& self.web_site@ == text_field(lines, Field::WebSite)
        &&& self.same_type_sequence@ == text_field(lines, Field::SameTypeSequence)
        &&& self.idx_file_size == number_field(lines, Field::IdxFileSize, 0)
        &&& self.word_count == number_field(lines, Field::WordCount, 0)
        &&& self.syn_word_count == number_field(lines, Field::SynWordCount, 0)
        &&& self.idxoffsetbits == number_field(lines, Field::IdxOffsetBits, 32)
    }

    /// Reads the `.ifo` file `content` of a dictionary stored at `dict_path`.
    /// Unknown keys and lines without `=` are ignored. Fails with `Parse` on a
    /// numeric value that is not a decimal `usize`, and with `Utf8` on a text
    /// value that is not UTF-8.
    pub fn open(content: &[u8], dict_path: String) -> (r: Result<Ifo, DictError>)
        ensures
            r is Ok <==> forall|j: int|
                0 <= j < text_lines_from(content@, 0, 0).len() ==> line_ok(
                    #[trigger] text_lines_from(content@, 0, 0)[j],
                ),
            r matches Ok(ifo) ==> ifo.read_from(text_lines_from(content@, 0, 0)) && ifo.dict_path
                == dict_path,
            r matches Err(DictError::Parse(v)) ==> exists|j: int| 0 <= j < text_lines_from(content@, 0, 0).len() && bad_number(#[trigger] text_lines_from(content@, 0, 0)[j], v@),
            r matches Err(DictError::Utf8) ==> exists|j: int| 0 <= j < text_lines_from(content@, 0, 0).len() && bad_text(#[trigger] text_lines_from(content@, 0, 0)[j]),
            r matches Err(e) ==> e is Parse || e is Utf8,
    {
        let mut it = Ifo {
            author: String::new(),
            version: String::new(),
            name: String::new(),
            date: String::new(),
            description: String::new(),
            email: String::new(),
            web_site: String::new(),
            same_type_sequence: String::new(),
            dict_path,
            idx_file_size: 0,
            word_count: 0,
            syn_word_count: 0,
            idxoffsetbits: 32,
        };
        let ghost all = text_lines_from(content@, 0, 0);
        let len = content.len();
        let mut ls: usize = 0;
        let mut i: usize = 0;
        let ghost mut done: Seq<Seq<u8>> = Seq::empty();
        while i < len
            invariant
                len == content@.len(),
                ls <= i <= len,
                all == done + text_lines_from(content@, ls as int, i as int),
                all == text_lines_from(content@, 0, 0),
                it.read_from(done),
                it.dict_path == dict_path,
                forall|j: int| 0 <= j < done.len() ==> line_ok(#[trigger] done[j]),
            decreases len - i,
        {
            if content[i] == 10 {
                let end = if i > ls && content[i - 1] == 13 {
                    i - 1
                } else {
                    i
                };
                let line = &content[ls..end];
                proof {
                    assert(line@ == strip_cr(content@.subrange(ls as int, i as int)));
                    assert(done + text_lines_from(content@, ls as int, i as int) =~= done.push(line@)
                        + text_lines_from(content@, i + 1, i + 1));
                    assert(done.push(line@).drop_last() =~= done);
                }
                let res = it.read_line(line, Ghost(done));
                proof {
                    if res is Err {
                        assert(all[done.len() as int] == line@);
                        assert(!line_ok(text_lines_from(content@, 0, 0)[done.len() as int]));
                        assert(text_lines_from(content@, 0, 0)[done.len() as int] == line@);
                    }
                }
                if let Err(e) = res {
                    return Err(e);
                }
                proof {
                    done = done.push(line@);
                }
                ls = i + 1;
            }
            i = i + 1;
        }
        if ls < len {
            let line = &content[ls..len];
            proof {
                assert(done.push(line@).drop_last() =~= done);
            }
            let res = it.read_line(line, Ghost(done));
            proof {
                if res is Err {
                    assert(all[done.len() as int] == line@);
                    assert(!line_ok(text_lines_from(content@, 0, 0)[done.len() as int]));
                    assert(text_lines_from(content@, 0, 0)[done.len() as int] == line@);
                }
            }
            if let Err(e) = res {
                return Err(e);
            }
            proof {
                done = done.push(line@);
            }
        }
        assert(done =~= all);
        Ok(it)
    }

    /// Reads one more line.
    fn read_line(&mut self, line: &[u8], Ghost(done): Ghost<Seq<Seq<u8>>>) -> (r: Result<(), DictError>)
        requires
            old(self).read_from(done),
        ensures
            r is Ok <==> line_ok(line@),
            r is Ok ==> final(self).read_from(done.push(line@)),
            final(self).dict_path == old(self).dict_path,
            r matches Err(e) ==> e is Parse || e is Utf8,
            r matches Err(DictError::Parse(v)) ==> bad_number(line@, v@),
            r matches Err(DictError::Utf8) ==> bad_text(line@),
    {
        let ghost lines = done.push(line@);
        assert(lines.drop_last() =~= done);
        let mut p: usize = 0;
        while p < line.len() && line[p] != 61
            invariant
                0 <= p <= line@.len(),
                first_eq(line@, 0) == first_eq(line@, p as int),
            decreases line@.len() - p,
        {
            p = p + 1;
        }
        if p >= line.len() {
            proof {
                assert forall|f: Field| last_value(lines, f) == last_value(done, f) by {}
            }
            return Ok(());
        }
        let key = &line[0..p];
        let val = &line[p + 1..line.len()];
        let f = field_for(key);
        proof {
            assert(key_value(line@) == Some((key@, val@)));
            assert forall|g: Field| g != f implies last_value(lines, g) == last_value(done, g) by {}
            assert(last_value(lines, f) == Some(val@));
        }
        match f {
            Field::IdxFileSize | Field::WordCount | Field::SynWordCount | Field::IdxOffsetBits => {
                match parse_usize(val) {
                    None => {
                        return Err(DictError::Parse(slice_to_vec(val)));
                    },
                    Some(v) => {
                        match f {
                            Field::IdxFileSize => self.idx_file_size = v,
                            Field::WordCount => self.word_count = v,
                            Field::SynWordCount => self.syn_word_count = v,
                            _ => self.idxoffsetbits = v,
                        }
                    },
                }
            },
            Field::Other => {},
            _ => {
                match utf8_string(val) {
                    None => {
                        return Err(DictError::Utf8);
                    },
                    Some(v) => {
                        match f {
                            Field::Author => self.author = v,
                            Field::Version => self.version = v,
                            Field::Name => self.name = v,
                            Field::Date => self.date = v,
                            Field::Description => self.description = v,
                            Field::Email => self.email = v,
                            Field::WebSite => self.web_site = v,
                            _ => self.same_type_sequence = v,
                        }
                    },
                }
            },
        }
        Ok(())
    }
}

} // verus!
