//! Encoding mappings, splitting source text, and streaming the chunks of a
//! source.
use vstd::prelude::*;

use crate::encoder::{lemma_full_run_ascii, lemma_lines_run_ascii, FullMappingsEncoder};
use crate::mapping::{
    full_initial, full_mappings, full_run, lines_accepts, lines_initial, lines_mappings, lines_run,
    lines_step, lines_valid, semicolons, LinesState, MapOptions, Mapping,
};
use crate::text::{ascii_chars, lemma_ascii_next_boundary, str_slice, string_from_ascii};
use vstd::string::StringSliceAdditionalSpecFns;
use vstd::utf8::{is_char_boundary, is_char_boundary_start_end_of_seq, valid_utf8};
use crate::source_map::SourceMap;
use crate::stream::{source_view, ChunkStream, StreamModel};
use crate::vlq::{encode, vlq};

verus! {

broadcast use vstd::utf8::encode_utf8_valid_utf8;

/// The `mappings` text of `mappings`, with columns or lines only as
/// `options.columns` says.
pub open spec fn mappings_text(mappings: Seq<Mapping>, columns: bool) -> Seq<u8> {
    if columns {
        full_mappings(mappings)
    } else {
        lines_mappings(mappings)
    }
}

/// Whether `mappings` can be encoded as `columns` says: the lines-only
/// encoding needs every mapping that it writes to lie on a line no earlier
/// than the last one written.
pub open spec fn mappings_encodable(mappings: Seq<Mapping>, columns: bool) -> bool {
    !columns ==> lines_valid(lines_initial(), mappings)
}

/// Encodes `mappings` as the `mappings` field of a source map.
pub fn encode_mappings(mappings: &[Mapping], options: &MapOptions) -> (res: String)
    requires
        mappings_encodable(mappings@, options.columns),
    ensures
        res@ == ascii_chars(mappings_text(mappings@, options.columns)),
{
    if options.columns {
        encode_full_mappings(mappings)
    } else {
        encode_lines_only_mappings(mappings)
    }
}

fn encode_full_mappings(mappings: &[Mapping]) -> (res: String)
    ensures
        res@ == ascii_chars(full_mappings(mappings@)),
{
    let mut encoder = FullMappingsEncoder::new();
    let n = mappings.len();
    for i in 0..n
        invariant
            n == mappings@.len(),
            encoder.state() == full_run(full_initial(), mappings@.take(i as int)).0,
            encoder.written() == full_run(full_initial(), mappings@.take(i as int)).1,
    {
        assert(mappings@.take(i + 1).drop_last() =~= mappings@.take(i as int));
        encoder.encode(&mappings[i]);
    }
    assert(mappings@.take(n as int) =~= mappings@);
    proof {
        lemma_full_run_ascii(full_initial(), mappings@);
    }
    encoder.drain()
}

proof fn lemma_lines_valid_take(st: LinesState, ms: Seq<Mapping>, j: int)
    requires
        lines_valid(st, ms),
        0 <= j <= ms.len(),
    ensures
        lines_valid(st, ms.take(j)),
    decreases ms.len(),
{
    if j == ms.len() {
        assert(ms.take(j) =~= ms);
    } else {
        assert(ms.take(j) =~= ms.drop_last().take(j));
        lemma_lines_valid_take(st, ms.drop_last(), j);
    }
}

/// Writes the segment of a mapping that the lines-only encoding keeps, after
/// its line separators: source and line as deltas, columns at 0.
fn write_lines_segment(
    out: &mut Vec<u8>,
    current_source_index: &mut u32,
    current_original_line: &mut u32,
    source_index: u32,
    original_line: u32,
)
    ensures
        final(out)@ == old(out)@ + seq![65u8] + vlq(source_index - *old(current_source_index))
            + vlq(original_line - *old(current_original_line)) + seq![65u8],
        *final(current_source_index) == source_index,
        *final(current_original_line) == original_line,
{
    let ghost start = out@;
    if source_index == *current_source_index {
        assert(vlq(0) == seq![65u8]);
        if *current_original_line < u32::MAX && original_line == *current_original_line + 1 {
            *current_original_line = original_line;
            out.push(65u8);
            out.push(65u8);
            out.push(67u8);
            out.push(65u8);
            assert(vlq(1) == seq![67u8]);
        } else {
            out.push(65u8);
            out.push(65u8);
            encode(out, original_line, *current_original_line);
            *current_original_line = original_line;
            out.push(65u8);
        }
    } else {
        out.push(65u8);
        encode(out, source_index, *current_source_index);
        *current_source_index = source_index;
        encode(out, original_line, *current_original_line);
        *current_original_line = original_line;
        out.push(65u8);
    }
    assert(out@ =~= start + seq![65u8] + vlq(source_index - *old(current_source_index)) + vlq(
        original_line - *old(current_original_line),
    ) + seq![65u8]);
}

fn encode_lines_only_mappings(mappings: &[Mapping]) -> (res: String)
    requires
        lines_valid(lines_initial(), mappings@),
    ensures
        res@ == ascii_chars(lines_mappings(mappings@)),
{
    let mut last_written_line: u32 = 0;
    let mut current_line: u32 = 1;
    let mut current_source_index: u32 = 0;
    let mut current_original_line: u32 = 1;
    let mut acc: Vec<u8> = Vec::new();
    let n = mappings.len();
    for i in 0..n
        invariant
            n == mappings@.len(),
            lines_valid(lines_initial(), mappings@),
            (LinesState {
                last_written_line,
                current_line,
                current_source_index,
                current_original_line,
            }) == lines_run(lines_initial(), mappings@.take(i as int)).0,
            acc@ == lines_run(lines_initial(), mappings@.take(i as int)).1,
    {
        let ghost st = LinesState {
            last_written_line,
            current_line,
            current_source_index,
            current_original_line,
        };
        let ghost start = acc@;
        proof {
            assert(mappings@.take(i + 1).drop_last() =~= mappings@.take(i as int));
            lemma_lines_valid_take(lines_initial(), mappings@, i + 1);
            assert(lines_accepts(st, mappings@[i as int]));
        }
        let mapping = &mappings[i];
        if let Some(original) = &mapping.original {
            if last_written_line != mapping.generated_line {
                let mut out: Vec<u8> = Vec::new();
                last_written_line = mapping.generated_line;
                if current_line < u32::MAX && mapping.generated_line == current_line + 1 {
                    current_line = mapping.generated_line;
                    out.push(59u8);
                    assert(out@ =~= semicolons(1));
                } else {
                    let mut k: u32 = 0;
                    let d = mapping.generated_line - current_line;
                    while k < d
                        invariant
                            k <= d,
                            out@ == semicolons(k as int),
                        decreases d - k,
                    {
                        out.push(59u8);
                        k = k + 1;
                        assert(out@ =~= semicolons(k as int));
                    }
                    current_line = mapping.generated_line;
                }
                write_lines_segment(
                    &mut out,
                    &mut current_source_index,
                    &mut current_original_line,
                    original.source_index,
                    original.original_line,
                );
                acc.append(&mut out);
                assert(acc@ =~= start + lines_step(st, *mapping).1);
            }
        }
    }
    assert(mappings@.take(n as int) =~= mappings@);
    proof {
        lemma_lines_run_ascii(lines_initial(), mappings@);
    }
    string_from_ascii(acc.as_slice())
}

/// The parts one after another.
pub open spec fn concat_all(parts: Seq<Seq<u8>>) -> Seq<u8>
    decreases parts.len(),
{
    if parts.len() == 0 {
        seq![]
    } else {
        parts[0] + concat_all(parts.drop_first())
    }
}

/// The bytes of each string of a list.
pub open spec fn strs_bytes(strs: Seq<&str>) -> Seq<Seq<u8>> {
    strs.map_values(|s: &str| s.spec_bytes())
}

/// Where the line that starts at `i` ends: after its newline, or at the end.
pub open spec fn line_end(b: Seq<u8>, i: int) -> int
    decreases b.len() - i,
{
    if i >= b.len() {
        b.len() as int
    } else if b[i] == 10 {
        i + 1
    } else {
        line_end(b, i + 1)
    }
}

pub proof fn lemma_line_end(b: Seq<u8>, i: int)
    requires
        0 <= i < b.len(),
    ensures
        i < line_end(b, i) <= b.len(),
        forall|t: int| i <= t < line_end(b, i) - 1 ==> b[t] != 10,
        line_end(b, i) < b.len() ==> b[line_end(b, i) - 1] == 10,
        line_end(b, i) == b.len() && b[b.len() - 1] != 10 ==> forall|t: int|
            i <= t < b.len() ==> b[t] != 10,
    decreases b.len() - i,
{
    if b[i] != 10 {
        if i + 1 < b.len() {
            lemma_line_end(b, i + 1);
        } else {
            assert(line_end(b, i + 1) == b.len());
        }
        assert(line_end(b, i) == line_end(b, i + 1));
    }
}

/// The lines of `b` from byte `i` on: each runs up to and including a
/// newline, the last one possibly without.
pub open spec fn lines_from(b: Seq<u8>, i: int) -> Seq<Seq<u8>>
    decreases b.len() - i,
{
    if 0 <= i < b.len() {
        proof {
            lemma_line_end(b, i);
        }
        seq![b.subrange(i, line_end(b, i))] + lines_from(b, line_end(b, i))
    } else {
        seq![]
    }
}

/// The lines of `b`.
pub open spec fn lines_of(b: Seq<u8>) -> Seq<Seq<u8>> {
    lines_from(b, 0)
}

proof fn lemma_lines_from_concat(b: Seq<u8>, i: int)
    requires
        0 <= i <= b.len(),
    ensures
        concat_all(lines_from(b, i)) == b.subrange(i, b.len() as int),
    decreases b.len() - i,
{
    if i < b.len() {
        lemma_line_end(b, i);
        let e = line_end(b, i);
        lemma_lines_from_concat(b, e);
        assert(lines_from(b, i).drop_first() == lines_from(b, e));
        assert(b.subrange(i, e) + b.subrange(e, b.len() as int) =~= b.subrange(i, b.len() as int));
    } else {
        assert(b.subrange(i, b.len() as int) =~= Seq::<u8>::empty());
    }
}

proof fn lemma_lines_from_shape(b: Seq<u8>, i: int)
    requires
        0 <= i <= b.len(),
    ensures
        forall|k: int| 0 <= k < lines_from(b, i).len() ==> #[trigger] lines_from(b, i)[k].len() > 0,
        forall|k: int, t: int|
            0 <= k < lines_from(b, i).len() && 0 <= t < lines_from(b, i)[k].len() - 1
                ==> #[trigger] lines_from(b, i)[k][t] != 10,
        forall|k: int|
            0 <= k < lines_from(b, i).len() - 1 ==> #[trigger] lines_from(b, i)[k].last() == 10,
    decreases b.len() - i,
{
    if i < b.len() {
        lemma_line_end(b, i);
        let e = line_end(b, i);
        lemma_lines_from_shape(b, e);
        let ls = lines_from(b, i);
        assert(ls.drop_first() == lines_from(b, e));
        assert forall|k: int, t: int| 0 <= k < ls.len() && 0 <= t < ls[k].len() - 1 implies #[trigger] ls[k][t] != 10 by {
            if k > 0 {
                assert(ls[k] == lines_from(b, e)[k - 1]);
            }
        }
        assert forall|k: int| 0 <= k < ls.len() - 1 implies #[trigger] ls[k].last() == 10 by {
            if k > 0 {
                assert(ls[k] == lines_from(b, e)[k - 1]);
            } else {
                assert(lines_from(b, e).len() > 0);
                assert(e < b.len());
            }
        }
        assert forall|k: int| 0 <= k < ls.len() implies #[trigger] ls[k].len() > 0 by {
            if k > 0 {
                assert(ls[k] == lines_from(b, e)[k - 1]);
            }
        }
    }
}

/// The lines of a text are non-empty, put back together they give the
/// text, every line but the last ends with a newline, and no line holds a
/// newline before its last byte.
pub proof fn lemma_lines_of(b: Seq<u8>)
    ensures
        concat_all(lines_of(b)) == b,
        forall|k: int| 0 <= k < lines_of(b).len() ==> #[trigger] lines_of(b)[k].len() > 0,
        forall|k: int| 0 <= k < lines_of(b).len() - 1 ==> #[trigger] lines_of(b)[k].last() == 10,
        forall|k: int, t: int|
            0 <= k < lines_of(b).len() && 0 <= t < lines_of(b)[k].len() - 1
                ==> #[trigger] lines_of(b)[k][t] != 10,
{
    lemma_lines_from_concat(b, 0);
    assert(b.subrange(0, b.len() as int) =~= b);
    lemma_lines_from_shape(b, 0);
}

/// Splits `source` into lines, each with its newline (`/[^\n]+\n?|\n/g`).
pub fn split_into_lines(source: &str) -> (res: Vec<&str>)
    ensures
        strs_bytes(res@) == lines_of(source.spec_bytes()),
{
    let ghost b = source.spec_bytes();
    let mut results: Vec<&str> = Vec::new();
    let mut i: usize = 0;
    let bytes = source.as_bytes();
    proof {
        is_char_boundary_start_end_of_seq(b);
    }
    while i < bytes.len()
        invariant
            bytes@ == b,
            b == source.spec_bytes(),
            i <= b.len(),
            is_char_boundary(b, i as int),
            strs_bytes(results@) + lines_from(b, i as int) == lines_of(b),
        decreases b.len() - i,
    {
        let ghost before = results@;
        proof {
            lemma_line_end(b, i as int);
        }
        let cc = bytes[i];
        if cc == 10 {
            proof {
                lemma_ascii_next_boundary(b, i as int);
            }
            results.push(str_slice(source, i, i + 1));
            i = i + 1;
        } else {
            let mut j = i + 1;
            while j < bytes.len() && bytes[j] != 10
                invariant
                    bytes@ == b,
                    i < j <= b.len(),
                    line_end(b, i as int) == line_end(b, j as int),
                decreases b.len() - j,
            {
                j = j + 1;
            }
            let end = if j < bytes.len() {
                j + 1
            } else {
                bytes.len()
            };
            proof {
                if j < b.len() {
                    lemma_ascii_next_boundary(b, j as int);
                } else {
                    is_char_boundary_start_end_of_seq(b);
                }
                assert(end == line_end(b, i as int));
            }
            results.push(str_slice(source, i, end));
            i = end;
        }
        assert(strs_bytes(results@) =~= strs_bytes(before).push(lines_of(b)[before.len() as int]))
            by {
            assert(lines_from(b, i as int) == lines_from(b, i as int));
        }
        proof {
            assert(strs_bytes(results@) + lines_from(b, i as int) =~= lines_of(b));
        }
    }
    assert(strs_bytes(results@) =~= lines_of(b));
    results
}

/// Whether a byte belongs to the first part of a potential token.
pub open spec fn is_plain(c: u8) -> bool {
    c != 10 && c != 59 && c != 123 && c != 125
}

/// Whether a byte belongs to the trailing part of a potential token.
pub open spec fn is_trail(c: u8) -> bool {
    c == 59 || c == 32 || c == 123 || c == 125 || c == 13 || c == 9
}

/// The first position from `i` on whose byte is not plain.
pub open spec fn skip_plain(b: Seq<u8>, i: int) -> int
    decreases b.len() - i,
{
    if i >= b.len() {
        b.len() as int
    } else if is_plain(b[i]) {
        skip_plain(b, i + 1)
    } else {
        i
    }
}

/// The first position from `i` on whose byte is not trailing.
pub open spec fn skip_trail(b: Seq<u8>, i: int) -> int
    decreases b.len() - i,
{
    if i >= b.len() {
        b.len() as int
    } else if is_trail(b[i]) {
        skip_trail(b, i + 1)
    } else {
        i
    }
}

/// Where the potential token that starts at `i` ends
/// (`/[^\n;{}]+[;{} \r\t]*\n?|[;{} \r\t]+\n?|\n/g`).
pub open spec fn token_end(b: Seq<u8>, i: int) -> int {
    let j = skip_plain(b, i);
    if j >= b.len() {
        b.len() as int
    } else {
        let k = skip_trail(b, j);
        if k >= b.len() {
            b.len() as int
        } else if b[k] == 10 {
            k + 1
        } else {
            k
        }
    }
}

proof fn lemma_skip_plain(b: Seq<u8>, i: int)
    requires
        0 <= i <= b.len(),
    ensures
        i <= skip_plain(b, i) <= b.len(),
        skip_plain(b, i) < b.len() ==> !is_plain(b[skip_plain(b, i)]),
    decreases b.len() - i,
{
    if i < b.len() && is_plain(b[i]) {
        lemma_skip_plain(b, i + 1);
    }
}

proof fn lemma_skip_trail(b: Seq<u8>, i: int)
    requires
        0 <= i <= b.len(),
    ensures
        i <= skip_trail(b, i) <= b.len(),
        skip_trail(b, i) < b.len() ==> !is_trail(b[skip_trail(b, i)]),
        skip_trail(b, i) > i ==> is_trail(b[skip_trail(b, i) - 1]),
    decreases b.len() - i,
{
    if i < b.len() && is_trail(b[i]) {
        lemma_skip_trail(b, i + 1);
        if skip_trail(b, i + 1) == i + 1 {
            assert(b[skip_trail(b, i) - 1] == b[i]);
        }
    }
}

/// A potential token is never empty, and ends at a character boundary.
pub proof fn lemma_token_end(b: Seq<u8>, i: int)
    requires
        0 <= i < b.len(),
    ensures
        i < token_end(b, i) <= b.len(),
        valid_utf8(b) ==> is_char_boundary(b, token_end(b, i)),
{
    lemma_skip_plain(b, i);
    let j = skip_plain(b, i);
    if j < b.len() {
        lemma_skip_trail(b, j);
        let k = skip_trail(b, j);
        if valid_utf8(b) {
            if k >= b.len() {
                is_char_boundary_start_end_of_seq(b);
            } else if b[k] == 10 {
                lemma_ascii_next_boundary(b, k);
            } else {
                assert(k > j);
                lemma_ascii_next_boundary(b, k - 1);
            }
        }
    } else if valid_utf8(b) {
        is_char_boundary_start_end_of_seq(b);
    }
}

/// The potential tokens of `b` from byte `i` on.
pub open spec fn tokens_from(b: Seq<u8>, i: int) -> Seq<Seq<u8>>
    decreases b.len() - i,
{
    if 0 <= i < b.len() {
        proof {
            lemma_token_end(b, i);
        }
        seq![b.subrange(i, token_end(b, i))] + tokens_from(b, token_end(b, i))
    } else {
        seq![]
    }
}

/// The potential tokens of a text from byte `i` on, put back together, give
/// the text from `i` on.
pub proof fn lemma_tokens_concat(b: Seq<u8>, i: int)
    requires
        0 <= i <= b.len(),
    ensures
        concat_all(tokens_from(b, i)) == b.subrange(i, b.len() as int),
    decreases b.len() - i,
{
    if i < b.len() {
        lemma_token_end(b, i);
        let e = token_end(b, i);
        lemma_tokens_concat(b, e);
        assert(tokens_from(b, i).drop_first() == tokens_from(b, e));
        assert(b.subrange(i, e) + b.subrange(e, b.len() as int) =~= b.subrange(i, b.len() as int));
    } else {
        assert(b.subrange(i, b.len() as int) =~= Seq::<u8>::empty());
    }
}

/// The potential tokens of a text, taken one at a time.
pub struct PotentialTokens<'a> {
    bytes: &'a [u8],
    source: &'a str,
    index: usize,
}

impl<'a> PotentialTokens<'a> {
    /// The text being split.
    pub closed spec fn text(&self) -> Seq<u8> {
        self.source.spec_bytes()
    }

    /// Where the next token starts.
    pub closed spec fn position(&self) -> int {
        self.index as int
    }

    /// The tokens still to come.
    pub open spec fn remaining(&self) -> Seq<Seq<u8>> {
        tokens_from(self.text(), self.position())
    }

    pub closed spec fn wf(&self) -> bool {
        &&& self.bytes@ == self.source.spec_bytes()
        &&& self.index <= self.bytes@.len()
        &&& is_char_boundary(self.source.spec_bytes(), self.index as int)
    }

    /// The next potential token, if any.
    pub fn next(&mut self) -> (res: Option<&'a str>)
        requires
            old(self).wf(),
        ensures
            final(self).wf(),
            final(self).text() == old(self).text(),
            old(self).remaining().len() == 0 ==> res is None && final(self).remaining().len() == 0,
            old(self).remaining().len() > 0 ==> (res matches Some(t) && t.spec_bytes()
                == old(self).remaining()[0] && final(self).remaining() == old(
                self,
            ).remaining().drop_first()),
    {
        let ghost b = self.source.spec_bytes();
        let start = self.index;
        if start >= self.bytes.len() {
            return None;
        }
        proof {
            lemma_token_end(b, start as int);
            lemma_skip_plain(b, start as int);
        }
        let mut i = start;
        while i < self.bytes.len() && self.bytes[i] != 10 && self.bytes[i] != 59
            && self.bytes[i] != 123 && self.bytes[i] != 125
            invariant
                self.bytes@ == b,
                start <= i <= b.len(),
                skip_plain(b, i as int) == skip_plain(b, start as int),
            decreases b.len() - i,
        {
            i = i + 1;
        }
        if i < self.bytes.len() {
            proof {
                lemma_skip_trail(b, i as int);
            }
            while i < self.bytes.len() && (self.bytes[i] == 59 || self.bytes[i] == 32
                || self.bytes[i] == 123 || self.bytes[i] == 125 || self.bytes[i] == 13
                || self.bytes[i] == 9)
                invariant
                    self.bytes@ == b,
                    skip_plain(b, start as int) <= i <= b.len(),
                    skip_plain(b, start as int) < b.len(),
                    skip_trail(b, i as int) == skip_trail(b, skip_plain(b, start as int)),
                decreases b.len() - i,
            {
                i = i + 1;
            }
            if i < self.bytes.len() && self.bytes[i] == 10 {
                i = i + 1;
            }
        }
        assert(i == token_end(b, start as int));
        self.index = i;
        let token = str_slice(self.source, start, i);
        assert(tokens_from(b, start as int).drop_first() == tokens_from(b, i as int));
        Some(token)
    }
}

/// The potential tokens of `source`, to be taken one at a time.
pub fn split_into_potential_tokens(source: &str) -> (res: PotentialTokens)
    ensures
        res.wf(),
        res.text() == source.spec_bytes(),
        res.remaining() == tokens_from(source.spec_bytes(), 0),
{
    proof {
        is_char_boundary_start_end_of_seq(source.spec_bytes());
    }
    PotentialTokens { bytes: source.as_bytes(), source, index: 0 }
}

/// The line and column where generated text ends.
#[derive(Clone, Copy, Debug, PartialEq, Eq, Structural)]
pub struct GeneratedInfo {
    /// Generated line
    pub generated_line: u32,
    /// Generated column
    pub generated_column: u32,
}

/// How many newlines `b` holds.
pub open spec fn count_newlines(b: Seq<u8>) -> nat
    decreases b.len(),
{
    if b.len() == 0 {
        0
    } else {
        count_newlines(b.drop_last()) + if b.last() == 10 { 1nat } else { 0nat }
    }
}

/// Where the last line of `b` starts: after its last newline, or at 0.
pub open spec fn last_line_start(b: Seq<u8>) -> int
    decreases b.len(),
{
    if b.len() == 0 {
        0
    } else if b.last() == 10 {
        b.len() as int
    } else {
        last_line_start(b.drop_last())
    }
}

/// Where text `b` ends: on line one plus its newlines, at the column (in
/// bytes, kept to 32 bits) after its last newline.
pub open spec fn generated_info_of(b: Seq<u8>) -> GeneratedInfo {
    GeneratedInfo {
        generated_line: (1 + count_newlines(b)) as u32,
        generated_column: (b.len() - last_line_start(b)) as u32,
    }
}

/// The newlines of two texts one after another are those of each.
pub proof fn lemma_count_newlines_concat(x: Seq<u8>, y: Seq<u8>)
    ensures
        count_newlines(x + y) == count_newlines(x) + count_newlines(y),
    decreases y.len(),
{
    if y.len() == 0 {
        assert(x + y =~= x);
    } else {
        lemma_count_newlines_concat(x, y.drop_last());
        assert((x + y).drop_last() =~= x + y.drop_last());
    }
}

/// The last line of two texts one after another starts in the second if it
/// has a newline, else where the last line of the first starts.
pub proof fn lemma_last_line_start_concat(x: Seq<u8>, y: Seq<u8>)
    ensures
        last_line_start(x + y) == if count_newlines(y) > 0 {
            x.len() + last_line_start(y)
        } else {
            last_line_start(x)
        },
    decreases y.len(),
{
    if y.len() == 0 {
        assert(x + y =~= x);
    } else {
        lemma_last_line_start_concat(x, y.drop_last());
        assert((x + y).drop_last() =~= x + y.drop_last());
    }
}

pub proof fn lemma_no_newline_start(b: Seq<u8>)
    ensures
        count_newlines(b) == 0 ==> last_line_start(b) == 0,
        count_newlines(b) <= b.len(),
    decreases b.len(),
{
    if b.len() > 0 {
        lemma_no_newline_start(b.drop_last());
    }
}

/// Where two texts one after another end: past the second's newlines, on
/// the line where the first ends if the second has none, and on its last
/// line's column, moved by the first's column if it has none.
pub proof fn lemma_generated_info_concat(a: Seq<u8>, b: Seq<u8>)
    requires
        1 + count_newlines(a + b) <= u32::MAX,
        (a + b).len() <= u32::MAX,
    ensures
        ({
            let ia = generated_info_of(a);
            let ib = generated_info_of(b);
            generated_info_of(a + b) == if ib.generated_line > 1 {
                GeneratedInfo {
                    generated_line: (ia.generated_line + ib.generated_line - 1) as u32,
                    generated_column: ib.generated_column,
                }
            } else {
                GeneratedInfo {
                    generated_line: ia.generated_line,
                    generated_column: (ia.generated_column + ib.generated_column) as u32,
                }
            }
        }),
{
    lemma_count_newlines_concat(a, b);
    lemma_last_line_start_concat(a, b);
    lemma_no_newline_start(a);
    lemma_no_newline_start(b);
    lemma_last_line_start(a);
    lemma_last_line_start(b);
    lemma_last_line_start(a + b);
}

/// Whether `ls` have the shape of the lines of a text: none empty, each but
/// the last ending with a newline, and none holding one before its end.
pub open spec fn line_shaped(ls: Seq<Seq<u8>>) -> bool {
    &&& forall|k: int| 0 <= k < ls.len() ==> #[trigger] ls[k].len() > 0
    &&& forall|k: int| 0 <= k < ls.len() - 1 ==> #[trigger] ls[k].last() == 10
    &&& forall|k: int, t: int| 0 <= k < ls.len() && 0 <= t < ls[k].len() - 1 ==> #[trigger] ls[k][t] != 10
}

/// A line: a newline only at its end, if anywhere.
proof fn lemma_one_line(l: Seq<u8>)
    requires
        l.len() > 0,
        forall|t: int| 0 <= t < l.len() - 1 ==> l[t] != 10,
    ensures
        count_newlines(l) == if l.last() == 10 { 1nat } else { 0nat },
        last_line_start(l) == if l.last() == 10 { l.len() as int } else { 0 },
{
    let p = l.drop_last();
    lemma_count_newlines_after(p, 0);
    lemma_last_line_start(p);
    assert(p.take(0) =~= Seq::<u8>::empty());
    if last_line_start(p) > 0 {
        assert(p[last_line_start(p) - 1] == l[last_line_start(p) - 1]);
    }
}

/// The newlines of lines one after another, and where the last of them
/// starts.
proof fn lemma_shaped_lines(ls: Seq<Seq<u8>>)
    requires
        line_shaped(ls),
    ensures
        ls.len() == 0 ==> count_newlines(concat_all(ls)) == 0 && concat_all(ls).len() == 0,
        ls.len() > 0 ==> count_newlines(concat_all(ls)) == ls.len() - 1 + if ls.last().last() == 10 {
            1int
        } else {
            0int
        },
        ls.len() > 0 ==> concat_all(ls).len() - last_line_start(concat_all(ls)) == if ls.last().last()
            == 10 {
            0int
        } else {
            ls.last().len() as int
        },
    decreases ls.len(),
{
    if ls.len() > 0 {
        let l = ls[0];
        let rest = ls.drop_first();
        assert(line_shaped(rest)) by {
            assert forall|k: int| 0 <= k < rest.len() implies #[trigger] rest[k].len() > 0 by {
                assert(rest[k] == ls[k + 1]);
            }
            assert forall|k: int| 0 <= k < rest.len() - 1 implies #[trigger] rest[k].last() == 10 by {
                assert(rest[k] == ls[k + 1]);
            }
            assert forall|k: int, t: int| 0 <= k < rest.len() && 0 <= t < rest[k].len() - 1 implies #[trigger] rest[k][t] != 10 by {
                assert(rest[k] == ls[k + 1]);
                assert(ls[k + 1][t] != 10);
            }
        }
        lemma_shaped_lines(rest);
        assert(l.len() > 0);
        assert forall|t: int| 0 <= t < l.len() - 1 implies l[t] != 10 by {
            assert(ls[0][t] != 10);
        }
        lemma_one_line(l);
        let r = concat_all(rest);
        assert(concat_all(ls) == l + r);
        lemma_count_newlines_concat(l, r);
        lemma_last_line_start_concat(l, r);
        lemma_last_line_start(r);
        if rest.len() > 0 {
            assert(ls[0].last() == 10);
            assert(rest.last() == ls.last());
            if count_newlines(r) == 0 {
                assert(rest.len() == 1);
                assert(concat_all(rest.drop_first()) == Seq::<u8>::empty()) by {
                    assert(rest.drop_first() =~= Seq::<Seq<u8>>::empty());
                }
                assert(r =~= rest[0] + Seq::<u8>::empty());
            }
        } else {
            assert(r =~= Seq::<u8>::empty());
            assert(l + r =~= l);
        }
    }
}

/// The lines of a text: as many as its newlines, plus one where it does
/// not end with a newline; the last line, without a newline, is the text
/// after its last newline.
pub proof fn lemma_lines_count(b: Seq<u8>)
    ensures
        lines_of(b).len() == 0 <==> b.len() == 0,
        lines_of(b).len() > 0 ==> count_newlines(b) == lines_of(b).len() - 1 + if lines_of(b).last().last()
            == 10 {
            1int
        } else {
            0int
        },
        lines_of(b).len() > 0 ==> b.len() - last_line_start(b) == if lines_of(b).last().last() == 10 {
            0int
        } else {
            lines_of(b).last().len() as int
        },
{
    lemma_lines_of(b);
    lemma_shaped_lines(lines_of(b));
}

pub proof fn lemma_last_line_start(b: Seq<u8>)
    ensures
        0 <= last_line_start(b) <= b.len(),
        last_line_start(b) > 0 ==> b[last_line_start(b) - 1] == 10,
        forall|t: int| last_line_start(b) <= t < b.len() ==> b[t] != 10,
    decreases b.len(),
{
    if b.len() > 0 && b.last() != 10 {
        lemma_last_line_start(b.drop_last());
        assert forall|t: int| last_line_start(b) <= t < b.len() implies b[t] != 10 by {
            if t < b.len() - 1 {
                assert(b[t] == b.drop_last()[t]);
            }
        }
    }
}

proof fn lemma_count_newlines_prefix(b: Seq<u8>, i: int)
    requires
        0 <= i < b.len(),
    ensures
        count_newlines(b.take(i + 1)) == count_newlines(b.take(i)) + if b[i] == 10 { 1nat } else { 0nat },
{
    assert(b.take(i + 1).drop_last() =~= b.take(i));
}

proof fn lemma_count_newlines_after(b: Seq<u8>, i: int)
    requires
        0 <= i <= b.len(),
        forall|t: int| i <= t < b.len() ==> b[t] != 10,
    ensures
        count_newlines(b.take(i)) == count_newlines(b),
    decreases b.len() - i,
{
    if i < b.len() {
        assert(b.drop_last().take(i) =~= b.take(i));
        lemma_count_newlines_after(b.drop_last(), i);
        assert(b.take(b.len() as int) =~= b);
    } else {
        assert(b.take(i) =~= b);
    }
}

/// Where `source` ends, as a generated text.
pub fn get_generated_source_info(source: &str) -> (res: GeneratedInfo)
    requires
        count_newlines(source.spec_bytes()) < u32::MAX,
    ensures
        res == generated_info_of(source.spec_bytes()),
{
    let bytes = source.as_bytes();
    let ghost b = bytes@;
    proof {
        lemma_last_line_start(b);
    }
    // the position of the last newline, if any
    let mut last: usize = bytes.len();
    while last > 0 && bytes[last - 1] != 10
        invariant
            bytes@ == b,
            last_line_start(b) <= last <= b.len(),
            last_line_start(b) > 0 ==> b[last_line_start(b) - 1] == 10,
            forall|t: int| last <= t < b.len() ==> b[t] != 10,
        decreases last,
    {
        last = last - 1;
    }
    proof {
        if last > last_line_start(b) {
            assert(b[last - 1] == 10);
        }
    }
    if last > 0 {
        let nl = last - 1;
        let mut generated_line: u32 = 2;
        let mut i: usize = 0;
        proof {
            lemma_count_newlines_prefix(b, nl as int);
            lemma_count_newlines_after(b, nl + 1);
            assert(b.take(0) =~= Seq::<u8>::empty());
        }
        while i < nl
            invariant
                bytes@ == b,
                nl + 1 == last_line_start(b),
                nl < b.len(),
                count_newlines(b.take(nl as int)) + 1 == count_newlines(b),
                i <= nl,
                generated_line == 2 + count_newlines(b.take(i as int)),
                count_newlines(b) < u32::MAX,
            decreases nl - i,
        {
            proof {
                lemma_count_newlines_prefix(b, i as int);
                lemma_count_newlines_mono(b, nl as int);
                assert(b.take(nl as int).take(i as int) =~= b.take(i as int));
                lemma_count_newlines_mono(b.take(nl as int), i as int + 1);
                assert(b.take(nl as int).take(i + 1) =~= b.take(i + 1));
            }
            if bytes[i] == 10 {
                generated_line = generated_line + 1;
            }
            i = i + 1;
        }
        proof {
            lemma_count_newlines_prefix(b, nl as int);
            lemma_count_newlines_after(b, nl + 1);
        }
        return GeneratedInfo {
            generated_line,
            generated_column: #[verifier::truncate] ((bytes.len() - nl - 1) as u32),
        };
    }
    proof {
        lemma_count_newlines_after(b, 0);
        assert(b.take(0) =~= Seq::<u8>::empty());
    }
    GeneratedInfo { generated_line: 1, generated_column: #[verifier::truncate] (bytes.len() as u32) }
}

proof fn lemma_count_newlines_mono(b: Seq<u8>, i: int)
    requires
        0 <= i <= b.len(),
    ensures
        count_newlines(b.take(i)) <= count_newlines(b),
    decreases b.len() - i,
{
    if i < b.len() {
        assert(b.drop_last().take(i) =~= b.take(i));
        lemma_count_newlines_mono(b.drop_last(), i);
        assert(b.take(b.len() as int) =~= b);
    } else {
        assert(b.take(i) =~= b);
    }
}

/// Values placed at their indices, gaps filled with empty strings, a later
/// value at an index replacing an earlier one.
pub open spec fn placed(entries: Seq<(u32, Seq<char>)>) -> Seq<Seq<char>>
    decreases entries.len(),
{
    if entries.len() == 0 {
        seq![]
    } else {
        let v = placed(entries.drop_last());
        let (i, x) = entries.last();
        if i < v.len() {
            v.update(i as int, x)
        } else {
            (v + Seq::new((i - v.len()) as nat, |k: int| Seq::<char>::empty())).push(x)
        }
    }
}

/// Values at strictly increasing indices are each placed at their index; the
/// list reaches just past the last index, and every index that no value was
/// given at holds the empty string.
pub proof fn lemma_placed_at_indices(entries: Seq<(u32, Seq<char>)>)
    requires
        increasing(entries.map_values(|e: (u32, Seq<char>)| e.0)),
    ensures
        entries.len() == 0 ==> placed(entries).len() == 0,
        entries.len() > 0 ==> placed(entries).len() == entries.last().0 + 1,
        forall|k: int| 0 <= k < entries.len() ==> placed(entries)[#[trigger] entries[k].0 as int] == entries[k].1,
        forall|i: int|
            #![trigger placed(entries)[i]]
            0 <= i < placed(entries).len() && (forall|k: int| 0 <= k < entries.len() ==> #[trigger] entries[k].0 != i)
                ==> placed(entries)[i] == Seq::<char>::empty(),
    decreases entries.len(),
{
    if entries.len() > 0 {
        let pre = entries.drop_last();
        let idx = entries.map_values(|e: (u32, Seq<char>)| e.0);
        assert(increasing(pre.map_values(|e: (u32, Seq<char>)| e.0))) by {
            let pidx = pre.map_values(|e: (u32, Seq<char>)| e.0);
            assert forall|a: int, b: int| 0 <= a < b < pre.len() implies #[trigger] pidx[a] < #[trigger] pidx[b] by {
                assert(idx[a] < idx[b]);
            }
        }
        lemma_placed_at_indices(pre);
        let v = placed(pre);
        let last = entries.last();
        let n = entries.len() - 1;
        assert(last == entries[n]);
        if pre.len() > 0 {
            assert(idx[n - 1] < idx[n]);
            assert(pre.last() == entries[n - 1]);
        }
        assert(v.len() <= last.0);
        assert forall|k: int| 0 <= k < entries.len() implies placed(entries)[#[trigger] entries[k].0 as int] == entries[k].1 by {
            if k < n {
                assert(pre[k] == entries[k]);
                assert(idx[k] < idx[n]);
            }
        }
        assert forall|i: int|
            #![trigger placed(entries)[i]]
            0 <= i < placed(entries).len() && (forall|k: int| 0 <= k < entries.len() ==> #[trigger] entries[k].0 != i)
            implies placed(entries)[i] == Seq::<char>::empty() by {
            if i < v.len() {
                assert forall|k: int| 0 <= k < pre.len() implies #[trigger] pre[k].0 != i by {
                    assert(pre[k] == entries[k]);
                }
            }
            assert(entries[n].0 != i);
        }
    }
}

proof fn lemma_contents_entries(s: Seq<(u32, Seq<char>, Option<Seq<char>>)>)
    requires
        increasing(s.map_values(|e: (u32, Seq<char>, Option<Seq<char>>)| e.0)),
    ensures
        increasing(source_contents_of(s).map_values(|e: (u32, Seq<char>)| e.0)),
        forall|k: int|
            0 <= k < s.len() && (#[trigger] s[k]).2 is Some ==> exists|j: int|
                0 <= j < source_contents_of(s).len() && #[trigger] source_contents_of(s)[j] == (s[k].0, s[k].2.unwrap()),
        forall|j: int|
            #![trigger source_contents_of(s)[j]]
            0 <= j < source_contents_of(s).len() ==> exists|k: int|
                0 <= k < s.len() && (#[trigger] s[k]).0 == source_contents_of(s)[j].0 && s[k].2 is Some,
        source_contents_of(s).len() > 0 ==> exists|k: int| 0 <= k < s.len() && (#[trigger] s[k]).0 == source_contents_of(s).last().0,
    decreases s.len(),
{
    if s.len() > 0 {
        let pre = s.drop_last();
        let idx = s.map_values(|e: (u32, Seq<char>, Option<Seq<char>>)| e.0);
        let pidx = pre.map_values(|e: (u32, Seq<char>, Option<Seq<char>>)| e.0);
        assert forall|a: int, b: int| 0 <= a < b < pre.len() implies #[trigger] pidx[a] < #[trigger] pidx[b] by {
            assert(idx[a] < idx[b]);
        }
        lemma_contents_entries(pre);
        let n = s.len() - 1;
        let r = source_contents_of(pre);
        let ridx = r.map_values(|e: (u32, Seq<char>)| e.0);
        assert forall|j: int| 0 <= j < r.len() implies r[j].0 < s[n].0 by {
            let k = choose|k: int| 0 <= k < pre.len() && (#[trigger] pre[k]).0 == r[j].0 && pre[k].2 is Some;
            assert(pre[k] == s[k]);
            assert(idx[k] < idx[n]);
        }
        let out = source_contents_of(s);
        let oidx = out.map_values(|e: (u32, Seq<char>)| e.0);
        assert forall|a: int, b: int| 0 <= a < b < out.len() implies #[trigger] oidx[a] < #[trigger] oidx[b] by {
            if b < r.len() {
                assert(ridx[a] < ridx[b]);
            } else {
                assert(out[a] == r[a]);
            }
        }
        assert forall|k: int| 0 <= k < s.len() && (#[trigger] s[k]).2 is Some implies exists|j: int|
            0 <= j < out.len() && #[trigger] out[j] == (s[k].0, s[k].2.unwrap()) by {
            if k < n {
                assert(pre[k] == s[k]);
                let j = choose|j: int| 0 <= j < r.len() && r[j] == (pre[k].0, pre[k].2.unwrap());
                assert(out[j] == r[j]);
            } else {
                assert(out[out.len() - 1] == (s[k].0, s[k].2.unwrap()));
            }
        }
        assert forall|j: int| #![trigger out[j]] 0 <= j < out.len() implies exists|k: int|
            0 <= k < s.len() && (#[trigger] s[k]).0 == out[j].0 && s[k].2 is Some by {
            if j < r.len() {
                assert(out[j] == r[j]);
                let k = choose|k: int| 0 <= k < pre.len() && (#[trigger] pre[k]).0 == r[j].0 && pre[k].2 is Some;
                assert(pre[k] == s[k]);
            } else {
                assert(s[n].0 == out[j].0);
            }
        }
        if out.len() > 0 {
            let j = out.len() - 1;
            assert(exists|k: int| 0 <= k < s.len() && (#[trigger] s[k]).0 == out[j].0 && s[k].2 is Some);
        }
    }
}

/// The source map gathered from a stream holds each registered source, and
/// each registered name, at its index; the contents of each source that came
/// with one at that source's index; and the empty string at the index of a
/// source that came without one, where the contents reach that far.
pub proof fn lemma_map_of_stream_places(res: Option<SourceMap>, m: StreamModel, columns: bool)
    requires
        map_of_model(res, m, columns),
        increasing(m.sources.map_values(|e: (u32, Seq<char>, Option<Seq<char>>)| e.0)),
        increasing(m.names.map_values(|e: (u32, Seq<char>)| e.0)),
    ensures
        res matches Some(sm) ==> {
            &&& forall|k: int| 0 <= k < m.sources.len() ==> sm.spec_sources()[#[trigger] m.sources[k].0 as int] == m.sources[k].1
            &&& forall|k: int| 0 <= k < m.names.len() ==> sm.spec_names()[#[trigger] m.names[k].0 as int] == m.names[k].1
            &&& forall|k: int|
                0 <= k < m.sources.len() && (#[trigger] m.sources[k]).2 is Some ==> sm.spec_sources_content()[m.sources[k].0 as int]
                    == m.sources[k].2.unwrap()
            &&& forall|k: int|
                0 <= k < m.sources.len() && (#[trigger] m.sources[k]).2 is None && m.sources[k].0
                    < sm.spec_sources_content().len() ==> sm.spec_sources_content()[m.sources[k].0 as int]
                    == Seq::<char>::empty()
        },
{
    if res is Some {
        let sm = res.unwrap();
        let s = m.sources;
        let names_e = source_names_of(s);
        let sidx = s.map_values(|e: (u32, Seq<char>, Option<Seq<char>>)| e.0);
        let nidx = names_e.map_values(|e: (u32, Seq<char>)| e.0);
        assert forall|a: int, b: int| 0 <= a < b < names_e.len() implies #[trigger] nidx[a] < #[trigger] nidx[b] by {
            assert(sidx[a] < sidx[b]);
        }
        lemma_placed_at_indices(names_e);
        assert forall|k: int| 0 <= k < s.len() implies sm.spec_sources()[#[trigger] s[k].0 as int] == s[k].1 by {
            assert(names_e[k] == (s[k].0, s[k].1));
            assert(placed(names_e)[names_e[k].0 as int] == names_e[k].1);
        }
        lemma_placed_at_indices(m.names);
        let ce = source_contents_of(s);
        lemma_contents_entries(s);
        lemma_placed_at_indices(ce);
        assert forall|k: int| 0 <= k < s.len() && (#[trigger] s[k]).2 is Some implies sm.spec_sources_content()[s[k].0 as int] == s[k].2.unwrap() by {
            let j = choose|j: int| 0 <= j < ce.len() && ce[j] == (s[k].0, s[k].2.unwrap());
            assert(ce[j].0 == s[k].0);
            assert(placed(ce)[ce[j].0 as int] == ce[j].1);
        }
        assert forall|k: int|
            0 <= k < s.len() && (#[trigger] s[k]).2 is None && s[k].0 < sm.spec_sources_content().len()
            implies sm.spec_sources_content()[s[k].0 as int] == Seq::<char>::empty() by {
            assert forall|j: int| 0 <= j < ce.len() implies #[trigger] ce[j].0 != s[k].0 by {
                let k2 = choose|k2: int| 0 <= k2 < s.len() && (#[trigger] s[k2]).0 == ce[j].0 && s[k2].2 is Some;
                if k2 < k {
                    assert(sidx[k2] < sidx[k]);
                } else if k < k2 {
                    assert(sidx[k] < sidx[k2]);
                }
            }
        }
    }
}

/// Values given at indices 0, 1, 2, ... in order are placed as they come.
pub proof fn lemma_placed_in_order(entries: Seq<(u32, Seq<char>)>)
    requires
        forall|k: int| 0 <= k < entries.len() ==> #[trigger] entries[k].0 == k,
    ensures
        placed(entries) == entries.map_values(|e: (u32, Seq<char>)| e.1),
    decreases entries.len(),
{
    if entries.len() > 0 {
        let pre = entries.drop_last();
        assert forall|k: int| 0 <= k < pre.len() implies #[trigger] pre[k].0 == k by {
            assert(pre[k] == entries[k]);
        }
        lemma_placed_in_order(pre);
        assert(entries.last().0 == entries.len() - 1);
        assert(Seq::new(0nat, |k: int| Seq::<char>::empty()) =~= Seq::<Seq<char>>::empty());
        assert(entries.map_values(|e: (u32, Seq<char>)| e.1) =~= pre.map_values(
            |e: (u32, Seq<char>)| e.1,
        ).push(entries.last().1));
        assert(placed(pre) + Seq::new(0nat, |k: int| Seq::<char>::empty()) =~= placed(pre));
    } else {
        assert(entries.map_values(|e: (u32, Seq<char>)| e.1) =~= Seq::<Seq<char>>::empty());
    }
}

/// Whether registration indices strictly increase.
pub open spec fn increasing(idx: Seq<u32>) -> bool {
    forall|a: int, b: int| 0 <= a < b < idx.len() ==> idx[a] < idx[b]
}

/// The sources of a stream as (index, source) pairs.
pub open spec fn source_names_of(s: Seq<(u32, Seq<char>, Option<Seq<char>>)>) -> Seq<(u32, Seq<char>)> {
    s.map_values(|e: (u32, Seq<char>, Option<Seq<char>>)| (e.0, e.1))
}

/// The sources of a stream that come with a content, as (index, content).
pub open spec fn source_contents_of(s: Seq<(u32, Seq<char>, Option<Seq<char>>)>) -> Seq<(u32, Seq<char>)>
    decreases s.len(),
{
    if s.len() == 0 {
        seq![]
    } else {
        let rest = source_contents_of(s.drop_last());
        match s.last().2 {
            Some(c) => rest.push((s.last().0, c)),
            None => rest,
        }
    }
}

/// The mappings of the chunks of a stream.
pub open spec fn chunk_mappings(cs: Seq<(Option<Seq<char>>, Mapping)>) -> Seq<Mapping> {
    cs.map_values(|c: (Option<Seq<char>>, Mapping)| c.1)
}

/// The characters of each string.
pub open spec fn strings_view(v: Seq<String>) -> Seq<Seq<char>> {
    v.map_values(|s: String| s@)
}

/// Indexed strings as plain values.
pub open spec fn entries_view(v: Seq<(u32, String)>) -> Seq<(u32, Seq<char>)> {
    v.map_values(|e: (u32, String)| (e.0, e.1@))
}

/// The indices of indexed strings.
pub open spec fn entry_indices(v: Seq<(u32, String)>) -> Seq<u32> {
    v.map_values(|e: (u32, String)| e.0)
}

proof fn lemma_views_push(v: Seq<(u32, String)>, x: (u32, String))
    ensures
        entries_view(v.push(x)) == entries_view(v).push((x.0, x.1@)),
        entry_indices(v.push(x)) == entry_indices(v).push(x.0),
{
    assert(entries_view(v.push(x)) =~= entries_view(v).push((x.0, x.1@)));
    assert(entry_indices(v.push(x)) =~= entry_indices(v).push(x.0));
}

proof fn lemma_strings_push(v: Seq<String>, x: String)
    ensures
        strings_view(v.push(x)) == strings_view(v).push(x@),
{
    assert(strings_view(v.push(x)) =~= strings_view(v).push(x@));
}

/// Places values at their indices.
fn place_strings(entries: &Vec<(u32, String)>) -> (res: Vec<String>)
    requires
        increasing(entry_indices(entries@)),
    ensures
        strings_view(res@) == placed(
            entries_view(entries@),
        ),
{
    let ghost ev = entries_view(entries@);
    let mut res: Vec<String> = Vec::new();
    let n = entries.len();
    for k in 0..n
        invariant
            n == entries@.len(),
            ev == entries_view(entries@),
            increasing(entry_indices(entries@)),
            strings_view(res@) == placed(ev.take(k as int)),
            k > 0 ==> res@.len() == entries@[k - 1].0 + 1,
            k == 0 ==> res@.len() == 0,
    {
        let index = entries[k].0;
        assert(ev.take(k + 1).drop_last() =~= ev.take(k as int));
        if k > 0 {
            let ghost idx = entry_indices(entries@);
            assert(idx[k - 1] < idx[k as int]);
        }
        let ghost before = strings_view(res@);
        while (res.len() as u64) < index as u64
            invariant
                res@.len() <= index,
                strings_view(res@) == before + Seq::new(
                    (res@.len() - before.len()) as nat,
                    |i: int| Seq::<char>::empty(),
                ),
                before.len() <= res@.len(),
            decreases index - res@.len(),
        {
            let ghost r0 = res@;
            let e = String::new();
            proof {
                lemma_strings_push(r0, e);
            }
            res.push(e);
            assert(strings_view(res@) =~= before + Seq::new(
                (res@.len() - before.len()) as nat,
                |i: int| Seq::<char>::empty(),
            ));
        }
        let x = entries[k].1.clone();
        proof {
            lemma_strings_push(res@, x);
            assert(ev[k as int] == (entries@[k as int].0, entries@[k as int].1@));
        }
        res.push(x);
        assert(strings_view(res@) =~= placed(ev.take(k + 1)));
    }
    assert(ev.take(n as int) =~= ev);
    res
}

/// The source map that a stream of chunks describes, gathered with mappings
/// only: `None` when the mappings text comes out empty.
pub open spec fn map_of_stream_text(cs: Seq<(Option<Seq<char>>, Mapping)>, columns: bool) -> Seq<u8> {
    mappings_text(chunk_mappings(cs), columns)
}

/// Whether `res` is the source map that the stream `m` describes: `None` when
/// no mapping is written, else the mappings encoded as `columns` says and
/// each source, content and name at its index.
pub open spec fn map_of_model(res: Option<SourceMap>, m: StreamModel, columns: bool) -> bool {
    &&& res is None <==> map_of_stream_text(m.chunks, columns).len() == 0
    &&& res matches Some(sm) ==> {
        &&& sm.spec_file() is None
        &&& sm.spec_mappings() == ascii_chars(map_of_stream_text(m.chunks, columns))
        &&& sm.spec_sources() == placed(source_names_of(m.sources))
        &&& sm.spec_sources_content() == placed(source_contents_of(m.sources))
        &&& sm.spec_names() == placed(m.names)
    }
}

/// Whether the stream `m` can be gathered into a source map: registration
/// indices strictly increase, and the mappings can be encoded.
pub open spec fn gatherable(m: StreamModel, columns: bool) -> bool {
    &&& increasing(m.sources.map_values(|e: (u32, Seq<char>, Option<Seq<char>>)| e.0))
    &&& increasing(m.names.map_values(|e: (u32, Seq<char>)| e.0))
    &&& mappings_encodable(chunk_mappings(m.chunks), columns)
}

/// A source that streams its chunks.
pub trait StreamChunks {
    /// What streaming under `options` gives.
    spec fn stream_model(&self, options: MapOptions) -> StreamModel;

    /// Whether streaming under `options` stays within 32-bit positions.
    spec fn can_stream(&self, options: MapOptions) -> bool;

    /// Estimate the number of mappings in the chunk; a source that gives no
    /// estimate says 0.
    fn mappings_size_hint(&self) -> (res: usize)
        default_ensures
            res == 0,
    {
        0
    }

    /// Streams the chunks.
    fn stream_chunks(&self, options: &MapOptions) -> (res: ChunkStream)
        requires
            self.can_stream(*options),
        ensures
            res.model() == self.stream_model(*options),
    ;
}

/// The source map of a source: its chunks streamed with `final_source` set,
/// then gathered (see [`map_of_model`]).
pub fn get_map<S: StreamChunks>(stream: &S, options: &MapOptions) -> (res: Option<SourceMap>)
    requires
        stream.can_stream(MapOptions { columns: options.columns, final_source: true }),
        gatherable(
            stream.stream_model(MapOptions { columns: options.columns, final_source: true }),
            options.columns,
        ),
    ensures
        map_of_model(
            res,
            stream.stream_model(MapOptions { columns: options.columns, final_source: true }),
            options.columns,
        ),
{
    let s = stream.stream_chunks(&MapOptions { columns: options.columns, final_source: true });
    get_map_of_stream(&s, options)
}

/// Gathers a stream of chunks, streamed with `final_source` set, into a
/// source map: the mappings encoded as `options.columns` says, each source,
/// content and name at its index.  `None` when no mapping is written.
pub fn get_map_of_stream(stream: &ChunkStream, options: &MapOptions) -> (res: Option<SourceMap>)
    requires
        increasing(stream.sources_view().map_values(|e: (u32, Seq<char>, Option<Seq<char>>)| e.0)),
        increasing(stream.names_view().map_values(|e: (u32, Seq<char>)| e.0)),
        mappings_encodable(chunk_mappings(stream.chunks_view()), options.columns),
    ensures
        map_of_model(res, stream.model(), options.columns),
{
    let mut mappings: Vec<Mapping> = Vec::new();
    let n = stream.chunks.len();
    for k in 0..n
        invariant
            n == stream.chunks@.len(),
            mappings@ == chunk_mappings(stream.chunks_view()).take(k as int),
    {
        mappings.push(stream.chunks[k].mapping);
        assert(mappings@ =~= chunk_mappings(stream.chunks_view()).take(k + 1));
    }
    assert(mappings@ =~= chunk_mappings(stream.chunks_view()));
    let mut source_entries: Vec<(u32, String)> = Vec::new();
    let mut content_entries: Vec<(u32, String)> = Vec::new();
    let m = stream.sources.len();
    let ghost sv = stream.sources_view();
    for k in 0..m
        invariant
            m == stream.sources@.len(),
            sv == stream.sources_view(),
            entries_view(source_entries@) == source_names_of(
                sv.take(k as int),
            ),
            entries_view(content_entries@) == source_contents_of(
                sv.take(k as int),
            ),
            entry_indices(source_entries@) == sv.take(k as int).map_values(
                |e: (u32, Seq<char>, Option<Seq<char>>)| e.0,
            ),
            entry_indices(content_entries@) == source_contents_of(
                sv.take(k as int),
            ).map_values(|e: (u32, Seq<char>)| e.0),
    {
        let e = &stream.sources[k];
        assert(sv.take(k + 1).drop_last() =~= sv.take(k as int));
        assert(sv[k as int] == source_view(stream.sources@[k as int]));
        assert(sv.take(k + 1) =~= sv.take(k as int).push(sv[k as int]));
        let src = e.source.clone();
        proof {
            lemma_views_push(source_entries@, (e.index, src));
        }
        source_entries.push((e.index, src));
        match &e.content {
            Some(c) => {
                let cc = c.clone();
                proof {
                    lemma_views_push(content_entries@, (e.index, cc));
                }
                content_entries.push((e.index, cc));
            },
            None => {},
        }
        assert(entries_view(source_entries@) =~= source_names_of(
            sv.take(k + 1),
        ));
        assert(entries_view(content_entries@) =~= source_contents_of(
            sv.take(k + 1),
        ));
        assert(entry_indices(source_entries@) =~= sv.take(k + 1).map_values(
            |e: (u32, Seq<char>, Option<Seq<char>>)| e.0,
        ));
        assert(entry_indices(content_entries@) =~= source_contents_of(
            sv.take(k + 1),
        ).map_values(|e: (u32, Seq<char>)| e.0));
    }
    assert(sv.take(m as int) =~= sv);
    proof {
        lemma_contents_increasing(sv);
    }
    let mut name_entries: Vec<(u32, String)> = Vec::new();
    let q = stream.names.len();
    let ghost nv = stream.names_view();
    for k in 0..q
        invariant
            q == stream.names@.len(),
            nv == stream.names_view(),
            entries_view(name_entries@) == nv.take(k as int),
            entry_indices(name_entries@) == nv.take(k as int).map_values(
                |e: (u32, Seq<char>)| e.0,
            ),
    {
        let e = &stream.names[k];
        let nm = e.name.clone();
        proof {
            lemma_views_push(name_entries@, (e.index, nm));
        }
        name_entries.push((e.index, nm));
        assert(entries_view(name_entries@) =~= nv.take(k + 1));
        assert(entry_indices(name_entries@) =~= nv.take(k + 1).map_values(
            |e: (u32, Seq<char>)| e.0,
        ));
    }
    assert(nv.take(q as int) =~= nv);
    let sources = place_strings(&source_entries);
    let sources_content = place_strings(&content_entries);
    let names = place_strings(&name_entries);
    let text = encode_mappings(mappings.as_slice(), options);
    if text.as_str().is_empty() {
        None
    } else {
        Some(SourceMap::new(None, text, sources, sources_content, names))
    }
}

proof fn lemma_contents_increasing(sv: Seq<(u32, Seq<char>, Option<Seq<char>>)>)
    requires
        increasing(sv.map_values(|e: (u32, Seq<char>, Option<Seq<char>>)| e.0)),
    ensures
        increasing(source_contents_of(sv).map_values(|e: (u32, Seq<char>)| e.0)),
        forall|j: int|
            0 <= j < source_contents_of(sv).len() ==> exists|t: int|
                0 <= t < sv.len() && #[trigger] source_contents_of(sv)[j].0 == sv[t].0,
    decreases sv.len(),
{
    if sv.len() > 0 {
        let idx = sv.map_values(|e: (u32, Seq<char>, Option<Seq<char>>)| e.0);
        assert(sv.drop_last().map_values(|e: (u32, Seq<char>, Option<Seq<char>>)| e.0)
            =~= idx.drop_last());
        lemma_contents_increasing(sv.drop_last());
        let rest = source_contents_of(sv.drop_last());
        assert forall|j: int| 0 <= j < rest.len() implies exists|t: int|
            0 <= t < sv.len() && #[trigger] rest[j].0 == sv[t].0 by {
            let t = choose|t: int| 0 <= t < sv.drop_last().len() && rest[j].0 == sv.drop_last()[t].0;
            assert(sv[t] == sv.drop_last()[t]);
        }
        if let Some(c) = sv.last().2 {
            let r2 = rest.push((sv.last().0, c));
            let ri = r2.map_values(|e: (u32, Seq<char>)| e.0);
            assert forall|a: int, b: int| 0 <= a < b < ri.len() implies ri[a] < ri[b] by {
                if b == ri.len() - 1 {
                    let t = choose|t: int| 0 <= t < sv.drop_last().len() && rest[a].0 == sv.drop_last()[t].0;
                    assert(idx[t] < idx[sv.len() - 1]);
                } else {
                    assert(ri[a] == rest.map_values(|e: (u32, Seq<char>)| e.0)[a]);
                    assert(ri[b] == rest.map_values(|e: (u32, Seq<char>)| e.0)[b]);
                }
            }
            assert forall|j: int| 0 <= j < r2.len() implies exists|t: int|
                0 <= t < sv.len() && #[trigger] r2[j].0 == sv[t].0 by {
                if j == r2.len() - 1 {
                    assert(r2[j].0 == sv[sv.len() - 1].0);
                } else {
                    assert(r2[j] == rest[j]);
                }
            }
        }
    }
}

} // verus!
