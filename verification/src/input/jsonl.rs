//! Documents from JSON Lines.

use sonic_rs::JsonValueTrait;
use vstd::prelude::*;
use vstd::string::StringSliceAdditionalSpecFns;
use vstd::utf8::encode_utf8;

use crate::search::{find_byte_from, first_byte, lemma_first_byte};
use crate::seqs::copy_bytes;

verus! {

/// The text of a field of a JSON object, where the object has the field and it
/// is a string.
pub uninterp spec fn json_text(json: Seq<u8>, field: Seq<char>) -> Option<Seq<char>>;

/// `sonic_rs::get_from_slice` for one field, and `as_str` of the value: the text
/// of the field, or `None` where there is no such field or it is no string.
#[verifier::external_body]
pub(crate) fn json_field(json: &[u8], field: &str) -> (r: Option<String>)
    ensures
        match r {
            Some(text) => json_text(json@, field@) == Some(text@),
            None => json_text(json@, field@) is None,
        },
{
    let value = sonic_rs::get_from_slice(json, &[field]).ok()?;
    value.as_str().map(str::to_owned)
}

/// Where the line of the first byte from `pos` on that is no line feed starts.
pub open spec fn line_start(s: Seq<u8>, pos: int) -> int
    decreases s.len() - pos,
{
    if 0 <= pos < s.len() && s[pos] == 0x0A {
        line_start(s, pos + 1)
    } else {
        pos
    }
}

/// Where the line from `pos` on ends.
pub open spec fn line_end(s: Seq<u8>, pos: int) -> int {
    match first_byte(s, 0x0A, pos) {
        Some(at) => at,
        None => s.len() as int,
    }
}

/// Where a line starts.
pub proof fn lemma_line_start(s: Seq<u8>, pos: int)
    requires
        0 <= pos <= s.len(),
    ensures
        pos <= line_start(s, pos) <= s.len(),
        line_start(s, pos) < s.len() ==> s[line_start(s, pos)] != 0x0A,
        forall|i: int| pos <= i < line_start(s, pos) ==> #[trigger] s[i] == 0x0A,
    decreases s.len() - pos,
{
    if pos < s.len() && s[pos] == 0x0A {
        lemma_line_start(s, pos + 1);
    }
}

/// The documents of JSON lines from `pos` on: of each line that is not empty the
/// text of the field, up to the first line without such a text.
pub open spec fn jsonl_docs(s: Seq<u8>, field: Seq<char>, pos: int) -> Seq<Seq<u8>>
    decreases s.len() - pos,
{
    let start = line_start(s, pos);
    if pos < 0 || start < pos || start >= s.len() {
        Seq::empty()
    } else {
        let end = line_end(s, start);
        if end <= start {
            Seq::empty()
        } else {
            match json_text(s.subrange(start, end), field) {
                None => Seq::empty(),
                Some(text) => seq![encode_utf8(text)] + if end < s.len() {
                    jsonl_docs(s, field, end + 1)
                } else {
                    Seq::empty()
                },
            }
        }
    }
}

/// The line of `s` that a reader at `pos` comes to, where there is one.
pub open spec fn line_at(s: Seq<u8>, pos: int) -> Option<Seq<u8>> {
    let start = line_start(s, pos);
    if start < s.len() {
        Some(s.subrange(start, line_end(s, start)))
    } else {
        None
    }
}

/// Where a reader at `pos` stands once it has read a line.
pub open spec fn behind_line(s: Seq<u8>, pos: int) -> int {
    let start = line_start(s, pos);
    if start < s.len() && line_end(s, start) < s.len() {
        line_end(s, start) + 1
    } else {
        s.len() as int
    }
}

/// Iterator over the documents of a byte slice of JSON lines.
pub struct JsonLinesSlice<'a> {
    slice: &'a [u8],
    position: usize,
    field: &'a str,
}

impl<'a> JsonLinesSlice<'a> {
    /// The lines.
    pub closed spec fn lines(self) -> Seq<u8> {
        self.slice@
    }

    /// The name of the field.
    pub closed spec fn field_name(self) -> Seq<char> {
        self.field@
    }

    /// How far the lines are read.
    pub closed spec fn at(self) -> int {
        self.position as int
    }

    /// The documents that are left, up to a line without the field.
    pub open spec fn rest(self) -> Seq<Seq<u8>> {
        jsonl_docs(self.lines(), self.field_name(), self.at())
    }

    /// The position lies in the slice, or just behind the last line.
    pub closed spec fn wf(self) -> bool {
        self.position <= self.slice@.len()
    }

    pub fn new(slice: &'a [u8], field: &'a str) -> (r: Self)
        ensures
            r.wf(),
            r.lines() == slice@,
            r.field_name() == field@,
            r.at() == 0,
    {
        JsonLinesSlice { slice, position: 0, field }
    }

    /// The next document. There is none at the end of the lines, and none of a
    /// line without the field; behind such a line the reading can go on.
    pub fn next(&mut self) -> (r: Option<Vec<u8>>)
        requires
            old(self).wf(),
        ensures
            final(self).wf(),
            final(self).lines() == old(self).lines(),
            final(self).field_name() == old(self).field_name(),
            final(self).at() == behind_line(old(self).lines(), old(self).at()),
            match r {
                Some(doc) => {
                    let line = line_at(old(self).lines(), old(self).at());
                    &&& line is Some
                    &&& json_text(line->0, old(self).field_name()) is Some
                    &&& doc@ == encode_utf8(json_text(line->0, old(self).field_name())->0)
                },
                None => line_at(old(self).lines(), old(self).at()) matches Some(line)
                    ==> json_text(line, old(self).field_name()) is None,
            },
            match r {
                Some(doc) => old(self).rest() == seq![doc@] + final(self).rest(),
                None => old(self).rest() == Seq::<Seq<u8>>::empty(),
            },
    {
        let ghost s = self.slice@;
        let ghost field = self.field@;
        let ghost from = self.position as int;
        let len: usize = self.slice.len();
        // Skip newlines
        while self.position < len && self.slice[self.position] == 0x0A
            invariant
                s == self.slice@,
                field == self.field@,
                len == s.len(),
                self.position <= len,
                from <= self.position,
                line_start(s, self.position as int) == line_start(s, from),
            decreases len - self.position,
        {
            self.position = self.position + 1;
        }
        let start: usize = self.position;
        assert(start == line_start(s, from));
        if start >= len {
            return None;
        }
        proof {
            lemma_first_byte(s, 0x0A, start as int);
        }
        let end: usize = match find_byte_from(self.slice, 0x0A, start) {
            Some(at) => at,
            None => len,
        };
        assert(end == line_end(s, start as int));
        let line: &[u8] = &self.slice[start..end];
        assert(line@ =~= s.subrange(start as int, end as int));
        if end < len {
            self.position = end + 1;
        } else {
            self.position = len;
            assert(jsonl_docs(s, field, len as int) =~= Seq::<Seq<u8>>::empty());
        }
        match json_field(line, self.field) {
            Some(text) => Some(copy_bytes(text.as_str().as_bytes())),
            None => None,
        }
    }
}

/// What a line that was read from a stream is.
pub enum LineStep {
    /// Nothing but line ends.
    Skip,
    Document(Vec<u8>),
    /// It has no text in the field: the documents end here.
    Stop,
}

/// Whether a line holds nothing but line ends.
pub open spec fn blank_line(line: Seq<u8>) -> bool {
    forall|i: int| 0 <= i < line.len() ==> #[trigger] line[i] == 0x0A || line[i] == 0x0D
}

/// What to do with a line of a stream of JSON lines.
pub fn line_step(line: &[u8], field: &str) -> (r: LineStep)
    ensures
        match r {
            LineStep::Skip => blank_line(line@),
            LineStep::Document(doc) => !blank_line(line@) && json_text(line@, field@) is Some
                && doc@ == encode_utf8(json_text(line@, field@)->0),
            LineStep::Stop => !blank_line(line@) && json_text(line@, field@) is None,
        },
{
    let mut blank: bool = true;
    for i in 0..line.len()
        invariant
            blank == (forall|k: int|
                0 <= k < i ==> #[trigger] line@[k] == 0x0A || line@[k] == 0x0D),
    {
        if line[i] != 0x0A && line[i] != 0x0D {
            blank = false;
        }
    }
    if blank {
        return LineStep::Skip;
    }
    match json_field(line, field) {
        Some(text) => LineStep::Document(copy_bytes(text.as_str().as_bytes())),
        None => LineStep::Stop,
    }
}

/// Whether every line from `pos` on that is not empty has a text in the field.
pub open spec fn all_texts(s: Seq<u8>, field: Seq<char>, pos: int) -> bool
    decreases s.len() - pos,
{
    let start = line_start(s, pos);
    if pos < 0 || start < pos || start >= s.len() {
        true
    } else {
        let end = line_end(s, start);
        end > start ==> json_text(s.subrange(start, end), field) is Some && (end < s.len()
            ==> all_texts(s, field, end + 1))
    }
}

/// Line starts and ends before a cut behind a line feed are the same in the part
/// before the cut.
proof fn lemma_line_in_prefix(s: Seq<u8>, p: int, pos: int)
    requires
        0 <= pos <= p <= s.len(),
        p > 0 ==> s[p - 1] == 0x0A,
    ensures
        line_start(s, pos) < p ==> line_start(s.take(p), pos) == line_start(s, pos) && line_end(
            s.take(p),
            line_start(s, pos),
        ) == line_end(s, line_start(s, pos)) && line_end(s, line_start(s, pos)) < p,
        line_start(s, pos) >= p ==> line_start(s.take(p), pos) == p && line_start(s, pos)
            == line_start(s, p),
    decreases p - pos,
{
    let t = s.take(p);
    if pos < p {
        assert(t[pos] == s[pos]);
        if s[pos] == 0x0A {
            lemma_line_in_prefix(s, p, pos + 1);
        } else {
            lemma_first_byte(s, 0x0A, pos);
            lemma_first_byte(t, 0x0A, pos);
            assert(s[p - 1] == 0x0A && t[p - 1] == 0x0A);
            let a = first_byte(s, 0x0A, pos)->0;
            let b = first_byte(t, 0x0A, pos)->0;
            assert(a <= p - 1 && b <= p - 1);
            assert(t[a] == s[a] && t[b] == s[b]);
        }
    } else {
        lemma_line_start(s, p);
    }
}

/// Cutting JSON lines behind a line feed changes none of their documents, where
/// every line has a text.
pub proof fn lemma_jsonl_cut(s: Seq<u8>, field: Seq<char>, pos: int, p: int)
    requires
        0 <= pos <= p <= s.len(),
        p > 0 ==> s[p - 1] == 0x0A,
        all_texts(s, field, pos),
    ensures
        jsonl_docs(s, field, pos) == jsonl_docs(s.take(p), field, pos) + jsonl_docs(s, field, p),
        all_texts(s, field, p),
        all_texts(s.take(p), field, pos),
    decreases p - pos,
{
    let t = s.take(p);
    let start = line_start(s, pos);
    lemma_line_in_prefix(s, p, pos);
    lemma_line_start(s, pos);
    if start < p {
        let end = line_end(s, start);
        lemma_first_byte(s, 0x0A, start);
        assert(t.subrange(start, end) =~= s.subrange(start, end));
        lemma_jsonl_cut(s, field, end + 1, p);
        let doc = seq![encode_utf8(json_text(s.subrange(start, end), field)->0)];
        assert(doc + (jsonl_docs(t, field, end + 1) + jsonl_docs(s, field, p)) =~= doc + jsonl_docs(
            t,
            field,
            end + 1,
        ) + jsonl_docs(s, field, p));
    } else {
        assert(jsonl_docs(t, field, pos) =~= Seq::<Seq<u8>>::empty());
        assert(line_start(s, p) == start);
        assert(jsonl_docs(s, field, p) == jsonl_docs(s, field, pos));
        assert(jsonl_docs(s, field, pos) =~= jsonl_docs(t, field, pos) + jsonl_docs(s, field, p));
    }
}

} // verus!
