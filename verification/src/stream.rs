//! Streaming the chunks of a source: the pieces of generated text, each with
//! the mapping of its start, together with the sources and names that the
//! mappings refer to.  What the stream would hand to callbacks is gathered
//! into a [`ChunkStream`].
use vstd::prelude::*;
use vstd::string::StringSliceAdditionalSpecFns;
use vstd::utf8::{
    decode_utf8, decode_utf8_encode_utf8, decode_utf8_split, encode_utf8, encode_utf8_decode_utf8,
    encode_utf8_valid_utf8, is_char_boundary, is_char_boundary_iff_not_is_continuation_byte,
    valid_utf8, valid_utf8_concat, valid_utf8_split,
};

use crate::helpers::{lines_of, split_into_lines, strs_bytes, GeneratedInfo};
use crate::mapping::{MapOptions, Mapping, OriginalLocation};
use crate::source_map::SourceMap;

verus! {

broadcast use encode_utf8_decode_utf8;

/// A piece of generated text (left out when only mappings matter) and the
/// mapping of its start.
pub struct Chunk {
    pub text: Option<String>,
    pub mapping: Mapping,
}

/// A source registered under an index, with its content if known.
pub struct SourceEntry {
    pub index: u32,
    pub source: String,
    pub content: Option<String>,
}

/// A name registered under an index.
pub struct NameEntry {
    pub index: u32,
    pub name: String,
}

/// Everything a stream of chunks reports: the chunks in order, the sources
/// and names in the order of their registration, and where the generated
/// text ends.
pub struct ChunkStream {
    pub chunks: Vec<Chunk>,
    pub sources: Vec<SourceEntry>,
    pub names: Vec<NameEntry>,
    pub info: GeneratedInfo,
}

/// The characters of an optional string.
pub open spec fn opt_chars(s: Option<String>) -> Option<Seq<char>> {
    match s {
        Some(t) => Some(t@),
        None => None,
    }
}

/// A chunk as plain values.
pub open spec fn chunk_view(c: Chunk) -> (Option<Seq<char>>, Mapping) {
    (opt_chars(c.text), c.mapping)
}

/// A source entry as plain values.
pub open spec fn source_view(s: SourceEntry) -> (u32, Seq<char>, Option<Seq<char>>) {
    (s.index, s.source@, opt_chars(s.content))
}

/// A name entry as plain values.
pub open spec fn name_view(n: NameEntry) -> (u32, Seq<char>) {
    (n.index, n.name@)
}

/// A chunk as plain values: its text, if any, and its mapping.
pub type ChunkView = (Option<Seq<char>>, Mapping);

/// A source registration as plain values: index, name, content.
pub type SourceView = (u32, Seq<char>, Option<Seq<char>>);

/// A name registration as plain values: index, name.
pub type NameView = (u32, Seq<char>);

/// A stream of chunks as plain values.
pub struct StreamModel {
    pub chunks: Seq<ChunkView>,
    pub sources: Seq<SourceView>,
    pub names: Seq<NameView>,
    pub info: GeneratedInfo,
}

impl ChunkStream {
    /// The stream as plain values.
    pub open spec fn model(&self) -> StreamModel {
        StreamModel {
            chunks: self.chunks_view(),
            sources: self.sources_view(),
            names: self.names_view(),
            info: self.info,
        }
    }

    pub open spec fn chunks_view(&self) -> Seq<(Option<Seq<char>>, Mapping)> {
        self.chunks@.map_values(|c: Chunk| chunk_view(c))
    }

    pub open spec fn sources_view(&self) -> Seq<(u32, Seq<char>, Option<Seq<char>>)> {
        self.sources@.map_values(|s: SourceEntry| source_view(s))
    }

    pub open spec fn names_view(&self) -> Seq<(u32, Seq<char>)> {
        self.names@.map_values(|n: NameEntry| name_view(n))
    }
}

/// The lines of a text as characters.
pub open spec fn text_lines(b: Seq<u8>) -> Seq<Seq<char>> {
    lines_of(b).map_values(|l: Seq<u8>| decode_utf8(l))
}

/// The lines of `source` and their characters.
pub(crate) fn lines_with_chars(source: &str) -> (res: Vec<&str>)
    ensures
        strs_bytes(res@) == lines_of(source.spec_bytes()),
        res@.len() == text_lines(source.spec_bytes()).len(),
        forall|k: int|
            0 <= k < res@.len() ==> #[trigger] res@[k]@ == text_lines(source.spec_bytes())[k],
{
    let res = split_into_lines(source);
    proof {
        assert forall|k: int| 0 <= k < res@.len() implies #[trigger] res@[k]@ == text_lines(
            source.spec_bytes(),
        )[k] by {
            assert(strs_bytes(res@)[k] == res@[k].spec_bytes());
            assert(decode_utf8(encode_utf8(res@[k]@)) == res@[k]@);
        }
    }
    res
}

/// Whether a line ends with a newline.
pub open spec fn ends_with_newline(l: Seq<u8>) -> bool {
    l.len() > 0 && l.last() == 10
}

/// Where a text split into lines ends: past the last line when it ends with
/// a newline, else on it after its bytes.
pub open spec fn end_of_lines(ls: Seq<Seq<u8>>) -> GeneratedInfo {
    let n = ls.len();
    if n > 0 && !ends_with_newline(ls[n - 1]) {
        GeneratedInfo { generated_line: n as u32, generated_column: ls[n - 1].len() as u32 }
    } else {
        GeneratedInfo { generated_line: (n + 1) as u32, generated_column: 0 }
    }
}

/// Where a text split into lines ends is where the text ends: the line
/// after its newlines, the column after its last newline.
pub proof fn lemma_end_of_lines(b: Seq<u8>)
    ensures
        end_of_lines(lines_of(b)) == crate::helpers::generated_info_of(b),
{
    crate::helpers::lemma_lines_count(b);
    crate::helpers::lemma_lines_of(b);
    if lines_of(b).len() == 0 {
        assert(b =~= Seq::<u8>::empty());
        assert(crate::helpers::count_newlines(b) == 0);
        assert(crate::helpers::last_line_start(b) == 0);
    }
}

/// The chunks of a text without a source map: each line at column 0,
/// mapped nowhere.
pub open spec fn raw_chunks(b: Seq<u8>) -> Seq<(Option<Seq<char>>, Mapping)> {
    Seq::new(
        text_lines(b).len(),
        |k: int|
            (
                Some(text_lines(b)[k]),
                Mapping { generated_line: (k + 1) as u32, generated_column: 0, original: None },
            ),
    )
}

/// The texts of chunks, one after another (a chunk without text adds
/// nothing).
pub open spec fn chunk_texts(cs: Seq<(Option<Seq<char>>, Mapping)>) -> Seq<char>
    decreases cs.len(),
{
    if cs.len() == 0 {
        seq![]
    } else {
        let first: Seq<char> = match cs[0].0 {
            Some(t) => t,
            None => seq![],
        };
        first + chunk_texts(cs.drop_first())
    }
}

/// Encoding characters one after another gives their encodings one after
/// another.
pub proof fn lemma_encode_utf8_concat(a: Seq<char>, b: Seq<char>)
    ensures
        encode_utf8(a + b) == encode_utf8(a) + encode_utf8(b),
    decreases a.len(),
{
    if a.len() > 0 {
        lemma_encode_utf8_concat(a.drop_first(), b);
        assert((a + b).drop_first() =~= a.drop_first() + b);
        assert(encode_utf8(a + b) =~= encode_utf8(a) + encode_utf8(b));
    } else {
        assert(a + b =~= b);
    }
}

/// Characters take at least one byte each.
proof fn lemma_encode_utf8_len(cs: Seq<char>)
    ensures
        cs.len() <= encode_utf8(cs).len(),
    decreases cs.len(),
{
    if cs.len() > 0 {
        lemma_encode_utf8_len(cs.drop_first());
    }
}

proof fn lemma_concat_all_part(ps: Seq<Seq<u8>>, k: int)
    requires
        0 <= k < ps.len(),
    ensures
        ps[k].len() <= crate::helpers::concat_all(ps).len(),
    decreases ps.len(),
{
    if k > 0 {
        lemma_concat_all_part(ps.drop_first(), k - 1);
        assert(ps.drop_first()[k - 1] == ps[k]);
    }
}

/// Decoding two valid encodings one after another gives their texts one
/// after another.
proof fn lemma_decode_concat(x: Seq<u8>, y: Seq<u8>)
    requires
        valid_utf8(x),
        valid_utf8(y),
    ensures
        decode_utf8(x + y) == decode_utf8(x) + decode_utf8(y),
{
    decode_utf8_encode_utf8(x);
    decode_utf8_encode_utf8(y);
    lemma_encode_utf8_concat(decode_utf8(x), decode_utf8(y));
    encode_utf8_decode_utf8(decode_utf8(x) + decode_utf8(y));
}

/// Lines one after another, the first line in front.
proof fn lemma_lines_text_cons(l: Seq<char>, ls: Seq<Seq<char>>)
    ensures
        lines_text(seq![l] + ls) == l + lines_text(ls),
{
    lemma_lines_text_append(seq![l], ls);
    assert(seq![l].drop_last() =~= Seq::<Seq<char>>::empty());
    assert(lines_text(Seq::<Seq<char>>::empty()) == Seq::<char>::empty());
    assert(lines_text(seq![l]) == lines_text(seq![l].drop_last()) + l);
    assert(Seq::<char>::empty() + l =~= l);
}

/// The lines of a valid encoding from byte `i` on are valid encodings, and
/// their texts, one after another, are the text from byte `i` on.
proof fn lemma_lines_from_decode(b: Seq<u8>, i: int)
    requires
        0 <= i <= b.len(),
        valid_utf8(b.subrange(i, b.len() as int)),
    ensures
        forall|k: int|
            0 <= k < crate::helpers::lines_from(b, i).len() ==> valid_utf8(
                #[trigger] crate::helpers::lines_from(b, i)[k],
            ),
        lines_text(crate::helpers::lines_from(b, i).map_values(|l: Seq<u8>| decode_utf8(l)))
            == decode_utf8(b.subrange(i, b.len() as int)),
    decreases b.len() - i,
{
    let lf = crate::helpers::lines_from(b, i);
    let s = b.subrange(i, b.len() as int);
    if i == b.len() {
        assert(lf =~= Seq::<Seq<u8>>::empty());
        assert(lf.map_values(|l: Seq<u8>| decode_utf8(l)) =~= Seq::<Seq<char>>::empty());
        assert(s =~= Seq::<u8>::empty());
    } else {
        crate::helpers::lemma_line_end(b, i);
        let e = crate::helpers::line_end(b, i);
        let p = b.subrange(i, e);
        let r = b.subrange(e, b.len() as int);
        let rest = crate::helpers::lines_from(b, e);
        assert(lf == seq![p] + rest);
        if e == b.len() {
            assert(rest =~= Seq::<Seq<u8>>::empty());
            assert(p =~= s);
        } else {
            let j = e - 1 - i;
            let t = s.subrange(j, s.len() as int);
            assert(s[j] == 10);
            is_char_boundary_iff_not_is_continuation_byte(s, j);
            valid_utf8_split(s, j);
            decode_utf8_split(s, j);
            assert(t[0] == 10);
            assert(is_char_boundary(t, 1)) by {
                reveal_with_fuel(is_char_boundary, 2);
            }
            valid_utf8_split(t, 1);
            decode_utf8_split(t, 1);
            valid_utf8_concat(s.subrange(0, j), t.subrange(0, 1));
            lemma_decode_concat(s.subrange(0, j), t.subrange(0, 1));
            assert(p =~= s.subrange(0, j) + t.subrange(0, 1));
            assert(r =~= t.subrange(1, t.len() as int));
            lemma_lines_from_decode(b, e);
        }
        assert(lf.map_values(|l: Seq<u8>| decode_utf8(l)) =~= seq![decode_utf8(p)]
            + rest.map_values(|l: Seq<u8>| decode_utf8(l)));
        lemma_lines_text_cons(decode_utf8(p), rest.map_values(|l: Seq<u8>| decode_utf8(l)));
        assert forall|k: int| 0 <= k < lf.len() implies valid_utf8(#[trigger] lf[k]) by {
            if k > 0 {
                assert(lf[k] == rest[k - 1]);
            }
        }
    }
}

/// The lines of a text, as characters, one after another, are the text, and
/// no line has more characters than bytes.
pub proof fn lemma_text_lines(cs: Seq<char>)
    ensures
        lines_text(text_lines(encode_utf8(cs))) == cs,
        forall|k: int|
            0 <= k < lines_of(encode_utf8(cs)).len() ==> #[trigger] text_lines(encode_utf8(cs))[k].len()
                <= lines_of(encode_utf8(cs))[k].len(),
{
    let b = encode_utf8(cs);
    encode_utf8_valid_utf8(cs);
    encode_utf8_decode_utf8(cs);
    assert(b.subrange(0, b.len() as int) =~= b);
    lemma_lines_from_decode(b, 0);
    assert forall|k: int| 0 <= k < lines_of(b).len() implies #[trigger] text_lines(b)[k].len()
        <= lines_of(b)[k].len() by {
        decode_utf8_encode_utf8(lines_of(b)[k]);
        lemma_encode_utf8_len(decode_utf8(lines_of(b)[k]));
    }
}

/// The chunks of a text without a map hold the text.
pub proof fn lemma_raw_text(cs: Seq<char>)
    ensures
        chunk_texts(raw_chunks(encode_utf8(cs))) == cs,
{
    lemma_raw_chunks_text(encode_utf8(cs));
    lemma_text_lines(cs);
}

/// No line of a valid encoding has more characters than bytes, nor more
/// bytes than the whole.
proof fn lemma_line_sizes(b: Seq<u8>)
    requires
        valid_utf8(b),
    ensures
        forall|k: int|
            0 <= k < lines_of(b).len() ==> #[trigger] text_lines(b)[k].len() <= lines_of(b)[k].len()
                <= b.len(),
{
    decode_utf8_encode_utf8(b);
    lemma_text_lines(decode_utf8(b));
    crate::helpers::lemma_lines_of(b);
    assert forall|k: int| 0 <= k < lines_of(b).len() implies #[trigger] text_lines(b)[k].len()
        <= lines_of(b)[k].len() <= b.len() by {
        lemma_concat_all_part(lines_of(b), k);
    }
}

/// Streams a text without a source map.  The chunks' texts, one after
/// another, are the text.
pub fn stream_chunks_of_raw_source(source: &str) -> (res: ChunkStream)
    requires
        lines_of(source.spec_bytes()).len() + 1 < u32::MAX,
    ensures
        res.chunks_view() == raw_chunks(source.spec_bytes()),
        chunk_texts(res.chunks_view()) == source@,
        res.sources@.len() == 0,
        res.names@.len() == 0,
        res.info == end_of_lines(lines_of(source.spec_bytes())),
        res.info == crate::helpers::generated_info_of(source.spec_bytes()),
{
    proof {
        lemma_end_of_lines(source.spec_bytes());
    }
    let lines = lines_with_chars(source);
    let ghost ls = lines_of(source.spec_bytes());
    let mut chunks: Vec<Chunk> = Vec::new();
    let mut line: u32 = 1;
    let n = lines.len();
    for k in 0..n
        invariant
            n == lines@.len(),
            n == ls.len(),
            n == text_lines(source.spec_bytes()).len(),
            strs_bytes(lines@) == ls,
            ls == lines_of(source.spec_bytes()),
            n + 1 < u32::MAX,
            line == k + 1,
            chunks@.len() == k,
            forall|j: int|
                0 <= j < k ==> chunk_view(#[trigger] chunks@[j]) == raw_chunks(
                    source.spec_bytes(),
                )[j],
            forall|j: int|
                0 <= j < lines@.len() ==> #[trigger] lines@[j]@ == text_lines(
                    source.spec_bytes(),
                )[j],
    {
        let l = lines[k];
        chunks.push(
            Chunk {
                text: Some(l.to_owned()),
                mapping: Mapping { generated_line: line, generated_column: 0, original: None },
            },
        );
        line = line + 1;
    }
    let info = if n > 0 && !ends_with_newline_exec(lines[n - 1]) {
        proof {
            assert(strs_bytes(lines@)[n - 1] == lines@[n - 1].spec_bytes());
            assert(ls[n - 1] == lines@[n - 1].spec_bytes());
            assert(!ends_with_newline(ls[n - 1]));
            assert(line - 1 == n);
        }
        GeneratedInfo { generated_line: line - 1, generated_column: #[verifier::truncate] (lines[n - 1].as_bytes().len() as u32) }
    } else {
        proof {
            if n > 0 {
                assert(strs_bytes(lines@)[n - 1] == lines@[n - 1].spec_bytes());
                assert(ls[n - 1] == lines@[n - 1].spec_bytes());
            }
            assert(line == n + 1);
        }
        GeneratedInfo { generated_line: line, generated_column: 0 }
    };
    let res = ChunkStream { chunks, sources: Vec::new(), names: Vec::new(), info };
    assert(res.chunks_view() =~= raw_chunks(source.spec_bytes()));
    proof {
        lemma_raw_text(source@);
    }
    res
}

/// Whether `line` ends with a newline.
fn ends_with_newline_exec(line: &str) -> (res: bool)
    ensures
        res == ends_with_newline(line.spec_bytes()),
{
    let b = line.as_bytes();
    b.len() > 0 && b[b.len() - 1] == 10
}

/// The sources of a source map as registrations: index, name and content.
pub open spec fn map_sources(sm: SourceMap) -> Seq<(u32, Seq<char>, Option<Seq<char>>)> {
    Seq::new(
        sm.spec_sources().len(),
        |i: int|
            (
                i as u32,
                sm.spec_sources()[i],
                if i < sm.spec_sources_content().len() {
                    Some(sm.spec_sources_content()[i])
                } else {
                    None
                },
            ),
    )
}

/// The names of a source map as registrations.
pub open spec fn map_names(sm: SourceMap) -> Seq<(u32, Seq<char>)> {
    Seq::new(sm.spec_names().len(), |i: int| (i as u32, sm.spec_names()[i]))
}

/// Registers every source of `source_map`.
fn register_sources(source_map: &SourceMap) -> (res: Vec<SourceEntry>)
    ensures
        res@.map_values(|s: SourceEntry| source_view(s)) == map_sources(*source_map),
{
    let sources = source_map.sources();
    let mut res: Vec<SourceEntry> = Vec::new();
    let n = sources.len();
    for i in 0..n
        invariant
            n == sources@.len(),
            sources@.map_values(|s: String| s@) == source_map.spec_sources(),
            res@.len() == i,
            forall|j: int|
                0 <= j < i ==> source_view(#[trigger] res@[j]) == map_sources(*source_map)[j],
    {
        let content = match source_map.get_source_content(i) {
            Some(c) => Some(c.clone()),
            None => None,
        };
        assert(sources@.map_values(|s: String| s@)[i as int] == sources@[i as int]@);
        res.push(
            SourceEntry { index: #[verifier::truncate] (i as u32), source: sources[i].clone(), content },
        );
    }
    assert(res@.map_values(|s: SourceEntry| source_view(s)) =~= map_sources(*source_map));
    res
}

/// Registers every name of `source_map`.
fn register_names(source_map: &SourceMap) -> (res: Vec<NameEntry>)
    ensures
        res@.map_values(|n: NameEntry| name_view(n)) == map_names(*source_map),
{
    let names = source_map.names();
    let mut res: Vec<NameEntry> = Vec::new();
    let n = names.len();
    for i in 0..n
        invariant
            n == names@.len(),
            names@.map_values(|s: String| s@) == source_map.spec_names(),
            res@.len() == i,
            forall|j: int| 0 <= j < i ==> name_view(#[trigger] res@[j]) == map_names(*source_map)[j],
    {
        assert(names@.map_values(|s: String| s@)[i as int] == names@[i as int]@);
        res.push(NameEntry { index: #[verifier::truncate] (i as u32), name: names[i].clone() });
    }
    assert(res@.map_values(|n: NameEntry| name_view(n)) =~= map_names(*source_map));
    res
}

/// A chunk without text.
pub open spec fn bare(m: Mapping) -> (Option<Seq<char>>, Mapping) {
    (None, m)
}

/// One mapping of the source map when only mappings matter, with `active`
/// the line of the last mapping kept that had an original: mappings at or
/// past the end of the text are dropped; a mapping to no original is kept
/// only to end an original one on the same line.
pub open spec fn final_step(info: GeneratedInfo, active: u32, m: Mapping) -> (u32, Seq<(Option<Seq<char>>, Mapping)>) {
    if m.generated_line >= info.generated_line && (m.generated_column >= info.generated_column
        || m.generated_line > info.generated_line) {
        (active, seq![])
    } else if m.original is Some {
        (m.generated_line, seq![bare(m)])
    } else if active == m.generated_line {
        (active, seq![bare(m)])
    } else {
        (active, seq![])
    }
}

pub open spec fn final_run(info: GeneratedInfo, ms: Seq<Mapping>) -> (u32, Seq<(Option<Seq<char>>, Mapping)>)
    decreases ms.len(),
{
    if ms.len() == 0 {
        (0, seq![])
    } else {
        let (a, cs) = final_run(info, ms.drop_last());
        let (a2, cs2) = final_step(info, a, ms.last());
        (a2, cs + cs2)
    }
}

/// Whether a text is empty as generated text: it ends where it starts.
pub open spec fn at_start(info: GeneratedInfo) -> bool {
    info.generated_line == 1 && info.generated_column == 0
}

/// What streaming a text with its source map gives when only mappings matter
/// and columns are kept.
pub open spec fn final_chunks(b: Seq<u8>, sm: SourceMap) -> Seq<(Option<Seq<char>>, Mapping)> {
    if at_start(crate::helpers::generated_info_of(b)) {
        seq![]
    } else {
        final_run(crate::helpers::generated_info_of(b), crate::source_map::decoded(sm.mappings_bytes())).1
    }
}

/// What `source` and the map have to satisfy for the map's mappings to be
/// read against the text: an empty text reads none, any other needs every
/// segment to decode.
pub open spec fn streamable(b: Seq<u8>, sm: SourceMap) -> bool {
    &&& b.len() > 0 ==> crate::source_map::mappings_ok(sm.mappings_bytes())
    &&& crate::helpers::count_newlines(b) + 2 < u32::MAX
}

/// Streams a text with its source map when only mappings matter, with columns.
fn stream_chunks_of_source_map_final(source: &str, source_map: &SourceMap) -> (res: ChunkStream)
    requires
        streamable(source.spec_bytes(), *source_map),
    ensures
        res.info == crate::helpers::generated_info_of(source.spec_bytes()),
        res.chunks_view() == final_chunks(source.spec_bytes(), *source_map),
        at_start(res.info) ==> res.sources@.len() == 0 && res.names@.len() == 0,
        !at_start(res.info) ==> res.sources_view() == map_sources(*source_map) && res.names_view()
            == map_names(*source_map),
{
    let result = crate::helpers::get_generated_source_info(source);
    if result.generated_line == 1 && result.generated_column == 0 {
        let res = ChunkStream { chunks: Vec::new(), sources: Vec::new(), names: Vec::new(), info: result };
        assert(res.chunks_view() =~= seq![]);
        return res;
    }
    let sources = register_sources(source_map);
    let names = register_names(source_map);
    let mappings = source_map.decoded_mappings();
    let mut chunks: Vec<Chunk> = Vec::new();
    let mut mapping_active_line: u32 = 0;
    let n = mappings.len();
    for i in 0..n
        invariant
            n == mappings@.len(),
            (mapping_active_line, chunks@.map_values(|c: Chunk| chunk_view(c))) == final_run(
                result,
                mappings@.take(i as int),
            ),
    {
        let ghost before = chunks@.map_values(|c: Chunk| chunk_view(c));
        let mapping = mappings[i];
        assert(mappings@.take(i + 1).drop_last() =~= mappings@.take(i as int));
        if mapping.generated_line >= result.generated_line && (mapping.generated_column
            >= result.generated_column || mapping.generated_line > result.generated_line) {
            assert(chunks@.map_values(|c: Chunk| chunk_view(c)) =~= before + seq![]);
        } else if mapping.original.is_some() {
            chunks.push(Chunk { text: None, mapping });
            mapping_active_line = mapping.generated_line;
            assert(chunks@.map_values(|c: Chunk| chunk_view(c)) =~= before + seq![bare(mapping)]);
        } else if mapping_active_line == mapping.generated_line {
            chunks.push(Chunk { text: None, mapping });
            assert(chunks@.map_values(|c: Chunk| chunk_view(c)) =~= before + seq![bare(mapping)]);
        } else {
            assert(chunks@.map_values(|c: Chunk| chunk_view(c)) =~= before + seq![]);
        }
    }
    assert(mappings@.take(n as int) =~= mappings@);
    ChunkStream { chunks, sources, names, info: result }
}

/// One mapping of the source map in the lines-only stream when only mappings
/// matter: the first mapping to an original on each line up to `final_line`,
/// from line `cur` on, is kept at column 0 and without its name.
pub open spec fn lines_final_step(final_line: int, cur: int, m: Mapping) -> (int, Seq<(Option<Seq<char>>, Mapping)>) {
    match m.original {
        Some(o) => if cur <= m.generated_line && m.generated_line <= final_line {
            (
                m.generated_line + 1,
                seq![
                    bare(
                        Mapping {
                            generated_line: m.generated_line,
                            generated_column: 0,
                            original: Some(OriginalLocation { name_index: None, ..o }),
                        },
                    ),
                ],
            )
        } else {
            (cur, seq![])
        },
        None => (cur, seq![]),
    }
}

pub open spec fn lines_final_run(final_line: int, ms: Seq<Mapping>) -> (int, Seq<(Option<Seq<char>>, Mapping)>)
    decreases ms.len(),
{
    if ms.len() == 0 {
        (1, seq![])
    } else {
        let (c, cs) = lines_final_run(final_line, ms.drop_last());
        let (c2, cs2) = lines_final_step(final_line, c, ms.last());
        (c2, cs + cs2)
    }
}

/// The last line that holds generated text.
pub open spec fn last_text_line(info: GeneratedInfo) -> int {
    if info.generated_column == 0 {
        info.generated_line - 1
    } else {
        info.generated_line as int
    }
}

/// What streaming a text with its source map gives when only mappings matter
/// and lines only are kept.
pub open spec fn lines_final_chunks(b: Seq<u8>, sm: SourceMap) -> Seq<(Option<Seq<char>>, Mapping)> {
    let info = crate::helpers::generated_info_of(b);
    if at_start(info) {
        seq![]
    } else {
        lines_final_run(last_text_line(info), crate::source_map::decoded(sm.mappings_bytes())).1
    }
}

/// Streams a text with its source map when only mappings matter, lines only.
fn stream_chunks_of_source_map_lines_final(source: &str, source_map: &SourceMap) -> (res: ChunkStream)
    requires
        streamable(source.spec_bytes(), *source_map),
    ensures
        res.info == crate::helpers::generated_info_of(source.spec_bytes()),
        res.chunks_view() == lines_final_chunks(source.spec_bytes(), *source_map),
        res.names@.len() == 0,
        at_start(res.info) ==> res.sources@.len() == 0,
        !at_start(res.info) ==> res.sources_view() == map_sources(*source_map),
{
    let result = crate::helpers::get_generated_source_info(source);
    if result.generated_line == 1 && result.generated_column == 0 {
        let res = ChunkStream {
            chunks: Vec::new(),
            sources: Vec::new(),
            names: Vec::new(),
            info: GeneratedInfo { generated_line: 1, generated_column: 0 },
        };
        assert(res.chunks_view() =~= seq![]);
        return res;
    }
    let sources = register_sources(source_map);
    let final_line = if result.generated_column == 0 {
        result.generated_line - 1
    } else {
        result.generated_line
    };
    let mappings = source_map.decoded_mappings();
    let mut chunks: Vec<Chunk> = Vec::new();
    let mut current_generated_line: u32 = 1;
    let n = mappings.len();
    for i in 0..n
        invariant
            n == mappings@.len(),
            final_line as int == last_text_line(result),
            final_line < u32::MAX,
            1 <= current_generated_line,
            (current_generated_line as int, chunks@.map_values(|c: Chunk| chunk_view(c)))
                == lines_final_run(final_line as int, mappings@.take(i as int)),
    {
        let ghost before = chunks@.map_values(|c: Chunk| chunk_view(c));
        let mapping = mappings[i];
        assert(mappings@.take(i + 1).drop_last() =~= mappings@.take(i as int));
        if let Some(original) = mapping.original {
            if current_generated_line <= mapping.generated_line && mapping.generated_line
                <= final_line {
                let m = Mapping {
                    generated_line: mapping.generated_line,
                    generated_column: 0,
                    original: Some(
                        OriginalLocation {
                            source_index: original.source_index,
                            original_line: original.original_line,
                            original_column: original.original_column,
                            name_index: None,
                        },
                    ),
                };
                chunks.push(Chunk { text: None, mapping: m });
                current_generated_line = mapping.generated_line + 1;
                assert(chunks@.map_values(|c: Chunk| chunk_view(c)) =~= before + seq![bare(m)]);
            } else {
                assert(chunks@.map_values(|c: Chunk| chunk_view(c)) =~= before + seq![]);
            }
        } else {
            assert(chunks@.map_values(|c: Chunk| chunk_view(c)) =~= before + seq![]);
        }
    }
    assert(mappings@.take(n as int) =~= mappings@);
    ChunkStream { chunks, sources, names: Vec::new(), info: result }
}

/// Lines `from` up to before `to` (counted from 1), each a chunk at column
/// 0 mapped nowhere.
pub open spec fn plain_lines(ls: Seq<Seq<char>>, from: int, to: int) -> Seq<(Option<Seq<char>>, Mapping)> {
    Seq::new(
        if to > from { (to - from) as nat } else { 0 },
        |i: int|
            (
                Some(ls[from + i - 1]),
                Mapping { generated_line: (from + i) as u32, generated_column: 0, original: None },
            ),
    )
}

proof fn lemma_plain_lines_push(ls: Seq<Seq<char>>, from: int, to: int)
    requires
        from <= to,
    ensures
        plain_lines(ls, from, to + 1) == plain_lines(ls, from, to).push(
            (
                Some(ls[to - 1]),
                Mapping { generated_line: to as u32, generated_column: 0, original: None },
            ),
        ),
{
    assert(plain_lines(ls, from, to + 1) =~= plain_lines(ls, from, to).push(
        (
            Some(ls[to - 1]),
            Mapping { generated_line: to as u32, generated_column: 0, original: None },
        ),
    ));
}

pub proof fn lemma_push_view(cs: Seq<Chunk>, c: Chunk)
    ensures
        cs.push(c).map_values(|x: Chunk| chunk_view(x)) == cs.map_values(|x: Chunk| chunk_view(x)).push(
            chunk_view(c),
        ),
{
    assert(cs.push(c).map_values(|x: Chunk| chunk_view(x)) =~= cs.map_values(
        |x: Chunk| chunk_view(x),
    ).push(chunk_view(c)));
}

/// One mapping of the source map in the lines-only stream with text, `cur`
/// being the first line not yet streamed: the first mapping to an original on
/// a line streams the lines before it as plain, then its own line mapped.
pub open spec fn lines_full_step(ls: Seq<Seq<char>>, cur: int, m: Mapping) -> (int, Seq<(Option<Seq<char>>, Mapping)>) {
    match m.original {
        Some(o) => if m.generated_line < cur || m.generated_line > ls.len() {
            (cur, seq![])
        } else {
            (
                m.generated_line + 1,
                plain_lines(ls, cur, m.generated_line as int) + seq![
                    (
                        Some(ls[m.generated_line - 1]),
                        Mapping {
                            generated_line: m.generated_line,
                            generated_column: 0,
                            original: Some(OriginalLocation { name_index: None, ..o }),
                        },
                    ),
                ],
            )
        },
        None => (cur, seq![]),
    }
}

pub open spec fn lines_full_run(ls: Seq<Seq<char>>, ms: Seq<Mapping>) -> (int, Seq<(Option<Seq<char>>, Mapping)>)
    decreases ms.len(),
{
    if ms.len() == 0 {
        (1, seq![])
    } else {
        let (c, cs) = lines_full_run(ls, ms.drop_last());
        let (c2, cs2) = lines_full_step(ls, c, ms.last());
        (c2, cs + cs2)
    }
}

/// What streaming a text with its source map gives with text, lines only:
/// the chunks of the mappings, then the lines after the last one mapped.
pub open spec fn lines_full_chunks(b: Seq<u8>, sm: SourceMap) -> Seq<(Option<Seq<char>>, Mapping)> {
    let ls = text_lines(b);
    if ls.len() == 0 {
        seq![]
    } else {
        let (c, cs) = lines_full_run(ls, crate::source_map::decoded(sm.mappings_bytes()));
        cs + plain_lines(ls, c, ls.len() + 1 as int)
    }
}

/// Streams a text with its source map with text, lines only.
fn stream_chunks_of_source_map_lines_full(source: &str, source_map: &SourceMap) -> (res: ChunkStream)
    requires
        streamable(source.spec_bytes(), *source_map),
        lines_of(source.spec_bytes()).len() + 2 < u32::MAX,
    ensures
        res.info == end_of_lines(lines_of(source.spec_bytes())),
        res.chunks_view() == lines_full_chunks(source.spec_bytes(), *source_map),
        chunk_texts(res.chunks_view()) == source@,
        res.names@.len() == 0,
        lines_of(source.spec_bytes()).len() == 0 ==> res.sources@.len() == 0,
        lines_of(source.spec_bytes()).len() > 0 ==> res.sources_view() == map_sources(*source_map),
{
    let lines = lines_with_chars(source);
    let ghost ls = text_lines(source.spec_bytes());
    let ghost bl = lines_of(source.spec_bytes());
    let n = lines.len();
    if n == 0 {
        let res = ChunkStream {
            chunks: Vec::new(),
            sources: Vec::new(),
            names: Vec::new(),
            info: GeneratedInfo { generated_line: 1, generated_column: 0 },
        };
        assert(res.chunks_view() =~= seq![]);
        return res;
    }
    let sources = register_sources(source_map);
    let mappings = source_map.decoded_mappings();
    let mut chunks: Vec<Chunk> = Vec::new();
    let mut current_generated_line: u32 = 1;
    let m_count = mappings.len();
    for i in 0..m_count
        invariant
            m_count == mappings@.len(),
            n == lines@.len(),
            n == ls.len(),
            n + 2 < u32::MAX,
            forall|j: int| 0 <= j < lines@.len() ==> #[trigger] lines@[j]@ == ls[j],
            1 <= current_generated_line <= n + 1,
            (current_generated_line as int, chunks@.map_values(|c: Chunk| chunk_view(c)))
                == lines_full_run(ls, mappings@.take(i as int)),
    {
        let ghost before = chunks@.map_values(|c: Chunk| chunk_view(c));
        let ghost cur0 = current_generated_line as int;
        let mapping = mappings[i];
        assert(mappings@.take(i + 1).drop_last() =~= mappings@.take(i as int));
        if mapping.original.is_none() || mapping.generated_line < current_generated_line
            || mapping.generated_line as usize > n {
            assert(chunks@.map_values(|c: Chunk| chunk_view(c)) =~= before + seq![]);
        } else {
            while mapping.generated_line > current_generated_line
                invariant
                    n == lines@.len(),
                    n == ls.len(),
                    forall|j: int| 0 <= j < lines@.len() ==> #[trigger] lines@[j]@ == ls[j],
                    1 <= cur0 <= current_generated_line <= mapping.generated_line <= n,
                    chunks@.map_values(|c: Chunk| chunk_view(c)) == before + plain_lines(
                        ls,
                        cur0,
                        current_generated_line as int,
                    ),
                decreases mapping.generated_line - current_generated_line,
            {
                let ghost old_chunks = chunks@;
                let c = Chunk {
                    text: Some(lines[current_generated_line as usize - 1].to_owned()),
                    mapping: Mapping {
                        generated_line: current_generated_line,
                        generated_column: 0,
                        original: None,
                    },
                };
                proof {
                    lemma_push_view(old_chunks, c);
                    lemma_plain_lines_push(ls, cur0, current_generated_line as int);
                }
                chunks.push(c);
                current_generated_line = current_generated_line + 1;
            }
            let original = mapping.original.unwrap();
            let m = Mapping {
                generated_line: mapping.generated_line,
                generated_column: 0,
                original: Some(
                    OriginalLocation {
                        source_index: original.source_index,
                        original_line: original.original_line,
                        original_column: original.original_column,
                        name_index: None,
                    },
                ),
            };
            let ghost old_chunks = chunks@;
            let c = Chunk {
                text: Some(lines[mapping.generated_line as usize - 1].to_owned()),
                mapping: m,
            };
            proof {
                lemma_push_view(old_chunks, c);
            }
            chunks.push(c);
            current_generated_line = current_generated_line + 1;
            assert(chunks@.map_values(|c: Chunk| chunk_view(c)) =~= before + lines_full_step(
                ls,
                cur0,
                mapping,
            ).1);
        }
    }
    assert(mappings@.take(m_count as int) =~= mappings@);
    let ghost mid = chunks@.map_values(|c: Chunk| chunk_view(c));
    let ghost cur1 = current_generated_line as int;
    while current_generated_line as usize <= n
        invariant
            n == lines@.len(),
            n == ls.len(),
            n + 2 < u32::MAX,
            forall|j: int| 0 <= j < lines@.len() ==> #[trigger] lines@[j]@ == ls[j],
            1 <= cur1 <= current_generated_line <= n + 1,
            chunks@.map_values(|c: Chunk| chunk_view(c)) == mid + plain_lines(
                ls,
                cur1,
                current_generated_line as int,
            ),
        decreases n + 1 - current_generated_line,
    {
        let ghost old_chunks = chunks@;
        let c = Chunk {
            text: Some(lines[current_generated_line as usize - 1].to_owned()),
            mapping: Mapping {
                generated_line: current_generated_line,
                generated_column: 0,
                original: None,
            },
        };
        proof {
            lemma_push_view(old_chunks, c);
            lemma_plain_lines_push(ls, cur1, current_generated_line as int);
        }
        chunks.push(c);
        current_generated_line = current_generated_line + 1;
    }
    let last_line = lines[n - 1];
    proof {
        assert(strs_bytes(lines@)[n - 1] == lines@[n - 1].spec_bytes());
        assert(bl[n - 1] == lines@[n - 1].spec_bytes());
    }
    let last_new_line = ends_with_newline_exec(last_line);
    let final_line: u32 = if last_new_line {
        n as u32 + 1
    } else {
        n as u32
    };
    let final_column: u32 = if last_new_line {
        0
    } else {
        #[verifier::truncate] (last_line.as_bytes().len() as u32)
    };
    let res = ChunkStream {
        chunks,
        sources,
        names: Vec::new(),
        info: GeneratedInfo { generated_line: final_line, generated_column: final_column },
    };
    proof {
        lemma_lines_full_text(source.spec_bytes(), *source_map);
        lemma_raw_text(source@);
    }
    res
}

/// The characters of a line from character `start` to before `end`, both
/// cut to the line's length; nothing when `end <= start`.
pub open spec fn sub_chars(l: Seq<char>, start: int, end: int) -> Seq<char> {
    if end <= start {
        seq![]
    } else {
        let n = l.len() as int;
        l.subrange(if start < n { start } else { n }, if end < n { end } else { n })
    }
}

/// The characters of `line` from character `start` to before `end`, both
/// cut to the line's length.
pub fn substring(line: &str, start: usize, end: usize) -> (res: &str)
    ensures
        res@ == sub_chars(line@, start as int, end as int),
{
    if end <= start {
        let r = line.substring_char(0, 0);
        assert(r@ =~= sub_chars(line@, start as int, end as int));
        return r;
    }
    let n = line.unicode_len();
    let s = if start < n {
        start
    } else {
        n
    };
    let e = if end < n {
        end
    } else {
        n
    };
    line.substring_char(s, e)
}

/// Where the stream with text and columns stands between two mappings: the
/// next position not yet streamed, and the original of the mapping that
/// starts there, if one is waiting for its chunk.
#[derive(Clone, Copy, Debug, PartialEq, Eq, Structural)]
pub struct FullCursor {
    pub line: u32,
    pub column: u32,
    pub active: bool,
    pub active_original: Option<OriginalLocation>,
}

/// Closes the waiting mapping: its chunk runs to the end of its line, or to
/// the next mapping when that is on the same line.
pub open spec fn close_active(ls: Seq<Seq<char>>, st: FullCursor, m: Mapping) -> (FullCursor, Seq<(Option<Seq<char>>, Mapping)>) {
    if st.active && st.line <= ls.len() {
        let l = ls[st.line - 1];
        let (chunk, st1) = if m.generated_line != st.line {
            (
                sub_chars(l, st.column as int, usize::MAX as int),
                FullCursor { line: (st.line + 1) as u32, column: 0, active: false, ..st },
            )
        } else {
            (
                sub_chars(l, st.column as int, m.generated_column as int),
                FullCursor { column: m.generated_column, active: false, ..st },
            )
        };
        (
            st1,
            if chunk.len() > 0 {
                seq![
                    (
                        Some(chunk),
                        Mapping {
                            generated_line: st.line,
                            generated_column: st.column,
                            original: st.active_original,
                        },
                    ),
                ]
            } else {
                seq![]
            },
        )
    } else {
        (st, seq![])
    }
}

/// When the next mapping is on a later line, the rest of the current line
/// (if started) as a plain chunk.
pub open spec fn finish_line(ls: Seq<Seq<char>>, st: FullCursor, m: Mapping) -> (FullCursor, Seq<(Option<Seq<char>>, Mapping)>) {
    if m.generated_line > st.line && st.column > 0 {
        (
            FullCursor { line: (st.line + 1) as u32, column: 0, ..st },
            if st.line <= ls.len() {
                seq![
                    (
                        Some(sub_chars(ls[st.line - 1], st.column as int, usize::MAX as int)),
                        Mapping { generated_line: st.line, generated_column: st.column, original: None },
                    ),
                ]
            } else {
                seq![]
            },
        )
    } else {
        (st, seq![])
    }
}

/// Whole lines up to the line of the next mapping, as plain chunks.
pub open spec fn skip_lines(ls: Seq<Seq<char>>, st: FullCursor, m: Mapping) -> (FullCursor, Seq<(Option<Seq<char>>, Mapping)>) {
    if m.generated_line > st.line {
        (
            FullCursor { line: m.generated_line, ..st },
            plain_lines(
                ls,
                st.line as int,
                if m.generated_line <= ls.len() { m.generated_line as int } else { ls.len() + 1 as int },
            ),
        )
    } else {
        (st, seq![])
    }
}

/// Text before the column of the next mapping, as a plain chunk.
pub open spec fn fill_columns(ls: Seq<Seq<char>>, st: FullCursor, m: Mapping) -> (FullCursor, Seq<(Option<Seq<char>>, Mapping)>) {
    if m.generated_column > st.column {
        (
            FullCursor { column: m.generated_column, ..st },
            if st.line <= ls.len() {
                seq![
                    (
                        Some(sub_chars(ls[st.line - 1], st.column as int, m.generated_column as int)),
                        Mapping { generated_line: st.line, generated_column: st.column, original: None },
                    ),
                ]
            } else {
                seq![]
            },
        )
    } else {
        (st, seq![])
    }
}

/// A mapping to an original, before the end of the text, waits for its chunk.
pub open spec fn open_mapping(st: FullCursor, m: Mapping, fl: u32, fc: u32) -> FullCursor {
    match m.original {
        Some(o) => if m.generated_line < fl || (m.generated_line == fl && m.generated_column < fc) {
            FullCursor { active: true, active_original: Some(o), ..st }
        } else {
            st
        },
        None => st,
    }
}

/// One mapping of the stream with text and columns.
pub open spec fn full_stream_step(ls: Seq<Seq<char>>, fl: u32, fc: u32, st: FullCursor, m: Mapping) -> (FullCursor, Seq<(Option<Seq<char>>, Mapping)>) {
    let (s1, c1) = close_active(ls, st, m);
    let (s2, c2) = finish_line(ls, s1, m);
    let (s3, c3) = skip_lines(ls, s2, m);
    let (s4, c4) = fill_columns(ls, s3, m);
    (open_mapping(s4, m, fl, fc), c1 + c2 + c3 + c4)
}

pub open spec fn full_stream_run(ls: Seq<Seq<char>>, fl: u32, fc: u32, ms: Seq<Mapping>) -> (FullCursor, Seq<(Option<Seq<char>>, Mapping)>)
    decreases ms.len(),
{
    if ms.len() == 0 {
        (FullCursor { line: 1, column: 0, active: false, active_original: None }, seq![])
    } else {
        let (st, cs) = full_stream_run(ls, fl, fc, ms.drop_last());
        let (st2, cs2) = full_stream_step(ls, fl, fc, st, ms.last());
        (st2, cs + cs2)
    }
}

/// What streaming a text with its source map gives with text and columns:
/// the chunks of the mappings, then those that an end mapping at the end of
/// the text closes.
pub open spec fn full_chunks(b: Seq<u8>, sm: SourceMap) -> Seq<(Option<Seq<char>>, Mapping)> {
    let ls = text_lines(b);
    if ls.len() == 0 {
        seq![]
    } else {
        let end = end_of_lines(lines_of(b));
        let fl = end.generated_line;
        let fc = end.generated_column;
        let (st, cs) = full_stream_run(ls, fl, fc, crate::source_map::decoded(sm.mappings_bytes()));
        cs + full_stream_step(
            ls,
            fl,
            fc,
            st,
            Mapping { generated_line: fl, generated_column: fc, original: None },
        ).1
    }
}

/// Lines of the cursor count from 1.
pub open spec fn cursor_ok(st: FullCursor) -> bool {
    1 <= st.line
}

fn push_chunk(chunks: &mut Vec<Chunk>, text: &str, mapping: Mapping)
    ensures
        chunks_view_of(final(chunks)@) == chunks_view_of(old(chunks)@).push((Some(text@), mapping)),
{
    let c = Chunk { text: Some(text.to_owned()), mapping };
    proof {
        lemma_push_view(old(chunks)@, c);
    }
    chunks.push(c);
}

/// What the steps of the stream with text and columns require of the lines.
pub open spec fn lines_match(lines: Seq<&str>, ls: Seq<Seq<char>>) -> bool {
    &&& lines.len() == ls.len()
    &&& forall|j: int| 0 <= j < lines.len() ==> #[trigger] lines[j]@ == ls[j]
    &&& ls.len() + 2 < u32::MAX
}

pub open spec fn chunks_view_of(cs: Seq<Chunk>) -> Seq<(Option<Seq<char>>, Mapping)> {
    cs.map_values(|c: Chunk| chunk_view(c))
}

fn close_active_exec(
    lines: &Vec<&str>,
    cursor: &mut FullCursor,
    chunks: &mut Vec<Chunk>,
    mapping: &Mapping,
    Ghost(ls): Ghost<Seq<Seq<char>>>,
)
    requires
        lines_match(lines@, ls),
        cursor_ok(*old(cursor)),
    ensures
        cursor_ok(*final(cursor)),
        *final(cursor) == close_active(ls, *old(cursor), *mapping).0,
        chunks_view_of(final(chunks)@) == chunks_view_of(old(chunks)@) + close_active(
            ls,
            *old(cursor),
            *mapping,
        ).1,
{
    let n = lines.len();
    if cursor.active && cursor.line as usize <= n {
        let mapping_line = cursor.line;
        let mapping_column = cursor.column;
        let line = lines[cursor.line as usize - 1];
        let chunk = if mapping.generated_line != cursor.line {
            let c = substring(line, cursor.column as usize, usize::MAX);
            cursor.line = cursor.line + 1;
            cursor.column = 0;
            c
        } else {
            let c = substring(line, cursor.column as usize, mapping.generated_column as usize);
            cursor.column = mapping.generated_column;
            c
        };
        if !chunk.is_empty() {
            push_chunk(
                chunks,
                chunk,
                Mapping {
                    generated_line: mapping_line,
                    generated_column: mapping_column,
                    original: cursor.active_original,
                },
            );
        } else {
            assert(chunks_view_of(chunks@) =~= chunks_view_of(old(chunks)@) + seq![]);
        }
        cursor.active = false;
    } else {
        assert(chunks_view_of(chunks@) =~= chunks_view_of(old(chunks)@) + seq![]);
    }
}

fn finish_line_exec(
    lines: &Vec<&str>,
    cursor: &mut FullCursor,
    chunks: &mut Vec<Chunk>,
    mapping: &Mapping,
    Ghost(ls): Ghost<Seq<Seq<char>>>,
)
    requires
        lines_match(lines@, ls),
        cursor_ok(*old(cursor)),
    ensures
        cursor_ok(*final(cursor)),
        *final(cursor) == finish_line(ls, *old(cursor), *mapping).0,
        chunks_view_of(final(chunks)@) == chunks_view_of(old(chunks)@) + finish_line(
            ls,
            *old(cursor),
            *mapping,
        ).1,
{
    let n = lines.len();
    if mapping.generated_line > cursor.line && cursor.column > 0 {
        if cursor.line as usize <= n {
            let chunk = substring(lines[cursor.line as usize - 1], cursor.column as usize, usize::MAX);
            push_chunk(
                chunks,
                chunk,
                Mapping { generated_line: cursor.line, generated_column: cursor.column, original: None },
            );
        } else {
            assert(chunks_view_of(chunks@) =~= chunks_view_of(old(chunks)@) + seq![]);
        }
        cursor.line = cursor.line + 1;
        cursor.column = 0;
    } else {
        assert(chunks_view_of(chunks@) =~= chunks_view_of(old(chunks)@) + seq![]);
    }
}

fn skip_lines_exec(
    lines: &Vec<&str>,
    cursor: &mut FullCursor,
    chunks: &mut Vec<Chunk>,
    mapping: &Mapping,
    Ghost(ls): Ghost<Seq<Seq<char>>>,
)
    requires
        lines_match(lines@, ls),
        cursor_ok(*old(cursor)),
    ensures
        cursor_ok(*final(cursor)),
        *final(cursor) == skip_lines(ls, *old(cursor), *mapping).0,
        chunks_view_of(final(chunks)@) == chunks_view_of(old(chunks)@) + skip_lines(
            ls,
            *old(cursor),
            *mapping,
        ).1,
{
    let n = lines.len();
    let ghost from = cursor.line as int;
    let ghost v0 = chunks_view_of(chunks@);
    if mapping.generated_line <= cursor.line {
        assert(chunks_view_of(chunks@) =~= v0 + seq![]);
        return ;
    }
    assert(plain_lines(ls, from, from) =~= seq![]);
    assert(v0 + plain_lines(ls, from, from) =~= v0);
    while mapping.generated_line > cursor.line
        invariant
            lines_match(lines@, ls),
            n == ls.len(),
            1 <= from <= cursor.line <= mapping.generated_line,
            cursor.column == old(cursor).column,
            cursor.active == old(cursor).active,
            cursor.active_original == old(cursor).active_original,
            from == old(cursor).line,
            v0 == chunks_view_of(old(chunks)@),
            chunks_view_of(chunks@) == v0 + plain_lines(
                ls,
                from,
                if cursor.line <= n { cursor.line as int } else { n + 1 },
            ),
        decreases mapping.generated_line - cursor.line,
    {
        if cursor.line as usize <= n {
            proof {
                lemma_plain_lines_push(ls, from, cursor.line as int);
            }
            push_chunk(
                chunks,
                lines[cursor.line as usize - 1],
                Mapping { generated_line: cursor.line, generated_column: 0, original: None },
            );
        }
        cursor.line = cursor.line + 1;
    }
}

fn fill_columns_exec(
    lines: &Vec<&str>,
    cursor: &mut FullCursor,
    chunks: &mut Vec<Chunk>,
    mapping: &Mapping,
    Ghost(ls): Ghost<Seq<Seq<char>>>,
)
    requires
        lines_match(lines@, ls),
        cursor_ok(*old(cursor)),
    ensures
        cursor_ok(*final(cursor)),
        *final(cursor) == fill_columns(ls, *old(cursor), *mapping).0,
        chunks_view_of(final(chunks)@) == chunks_view_of(old(chunks)@) + fill_columns(
            ls,
            *old(cursor),
            *mapping,
        ).1,
{
    let n = lines.len();
    if mapping.generated_column > cursor.column {
        if cursor.line as usize <= n {
            let chunk = substring(
                lines[cursor.line as usize - 1],
                cursor.column as usize,
                mapping.generated_column as usize,
            );
            push_chunk(
                chunks,
                chunk,
                Mapping { generated_line: cursor.line, generated_column: cursor.column, original: None },
            );
        } else {
            assert(chunks_view_of(chunks@) =~= chunks_view_of(old(chunks)@) + seq![]);
        }
        cursor.column = mapping.generated_column;
    } else {
        assert(chunks_view_of(chunks@) =~= chunks_view_of(old(chunks)@) + seq![]);
    }
}

/// Runs one mapping of the stream with text and columns.
fn full_stream_mapping(
    lines: &Vec<&str>,
    cursor: &mut FullCursor,
    chunks: &mut Vec<Chunk>,
    mapping: &Mapping,
    final_line: u32,
    final_column: u32,
    Ghost(ls): Ghost<Seq<Seq<char>>>,
)
    requires
        lines_match(lines@, ls),
        cursor_ok(*old(cursor)),
    ensures
        cursor_ok(*final(cursor)),
        *final(cursor) == full_stream_step(ls, final_line, final_column, *old(cursor), *mapping).0,
        chunks_view_of(final(chunks)@) == chunks_view_of(old(chunks)@) + full_stream_step(
            ls,
            final_line,
            final_column,
            *old(cursor),
            *mapping,
        ).1,
{
    let ghost v0 = chunks_view_of(chunks@);
    let ghost st0 = *cursor;
    close_active_exec(lines, cursor, chunks, mapping, Ghost(ls));
    let ghost v1 = chunks_view_of(chunks@);
    finish_line_exec(lines, cursor, chunks, mapping, Ghost(ls));
    let ghost v2 = chunks_view_of(chunks@);
    skip_lines_exec(lines, cursor, chunks, mapping, Ghost(ls));
    let ghost v3 = chunks_view_of(chunks@);
    fill_columns_exec(lines, cursor, chunks, mapping, Ghost(ls));
    if let Some(original) = mapping.original {
        if mapping.generated_line < final_line || (mapping.generated_line == final_line
            && mapping.generated_column < final_column) {
            cursor.active = true;
            cursor.active_original = Some(original);
        }
    }
    proof {
        let (s1, c1) = close_active(ls, st0, *mapping);
        let (s2, c2) = finish_line(ls, s1, *mapping);
        let (s3, c3) = skip_lines(ls, s2, *mapping);
        let (s4, c4) = fill_columns(ls, s3, *mapping);
        assert(chunks_view_of(chunks@) =~= v0 + (c1 + c2 + c3 + c4));
    }
}

/// Streams a text with its source map with text and columns: the text is cut
/// at every mapping, each piece carrying the mapping of its start.
fn stream_chunks_of_source_map_full(source: &str, source_map: &SourceMap) -> (res: ChunkStream)
    requires
        streamable(source.spec_bytes(), *source_map),
        lines_of(source.spec_bytes()).len() + 2 < u32::MAX,
    ensures
        res.info == end_of_lines(lines_of(source.spec_bytes())),
        res.chunks_view() == full_chunks(source.spec_bytes(), *source_map),
        positions_ok(crate::source_map::decoded(source_map.mappings_bytes()))
            && source.spec_bytes().len() <= u32::MAX ==> chunk_texts(res.chunks_view()) == source@,
        lines_of(source.spec_bytes()).len() == 0 ==> res.sources@.len() == 0
            && res.names@.len() == 0,
        lines_of(source.spec_bytes()).len() > 0 ==> res.sources_view() == map_sources(*source_map)
            && res.names_view() == map_names(*source_map),
{
    let lines = lines_with_chars(source);
    let ghost ls = text_lines(source.spec_bytes());
    let ghost bl = lines_of(source.spec_bytes());
    let n = lines.len();
    if n == 0 {
        let res = ChunkStream {
            chunks: Vec::new(),
            sources: Vec::new(),
            names: Vec::new(),
            info: GeneratedInfo { generated_line: 1, generated_column: 0 },
        };
        assert(res.chunks_view() =~= seq![]);
        return res;
    }
    let sources = register_sources(source_map);
    let names = register_names(source_map);
    let last_line = lines[n - 1];
    proof {
        assert(strs_bytes(lines@)[n - 1] == lines@[n - 1].spec_bytes());
        assert(bl[n - 1] == lines@[n - 1].spec_bytes());
    }
    let last_new_line = ends_with_newline_exec(last_line);
    let final_line: u32 = if last_new_line {
        n as u32 + 1
    } else {
        n as u32
    };
    let final_column: u32 = if last_new_line {
        0
    } else {
        #[verifier::truncate] (last_line.as_bytes().len() as u32)
    };
    let mappings = source_map.decoded_mappings();
    let mut chunks: Vec<Chunk> = Vec::new();
    let mut cursor = FullCursor { line: 1, column: 0, active: false, active_original: None };
    let m_count = mappings.len();
    assert(chunks_view_of(chunks@) =~= seq![]);
    for i in 0..m_count
        invariant
            m_count == mappings@.len(),
            lines_match(lines@, ls),
            cursor_ok(cursor),
            (cursor, chunks_view_of(chunks@)) == full_stream_run(
                ls,
                final_line,
                final_column,
                mappings@.take(i as int),
            ),
    {
        assert(mappings@.take(i + 1).drop_last() =~= mappings@.take(i as int));
        full_stream_mapping(
            &lines,
            &mut cursor,
            &mut chunks,
            &mappings[i],
            final_line,
            final_column,
            Ghost(ls),
        );
    }
    assert(mappings@.take(m_count as int) =~= mappings@);
    full_stream_mapping(
        &lines,
        &mut cursor,
        &mut chunks,
        &Mapping { generated_line: final_line, generated_column: final_column, original: None },
        final_line,
        final_column,
        Ghost(ls),
    );
    let res = ChunkStream {
        chunks,
        sources,
        names,
        info: GeneratedInfo { generated_line: final_line, generated_column: final_column },
    };
    proof {
        let b = source.spec_bytes();
        if positions_ok(crate::source_map::decoded(source_map.mappings_bytes())) && b.len()
            <= u32::MAX {
            encode_utf8_valid_utf8(source@);
            lemma_full_text(b, *source_map);
            lemma_raw_text(source@);
        }
    }
    res
}

/// What streaming a text with its source map gives under `options`.
pub open spec fn source_map_chunks(b: Seq<u8>, sm: SourceMap, options: MapOptions) -> Seq<(Option<Seq<char>>, Mapping)> {
    if options.columns {
        if options.final_source {
            final_chunks(b, sm)
        } else {
            full_chunks(b, sm)
        }
    } else {
        if options.final_source {
            lines_final_chunks(b, sm)
        } else {
            lines_full_chunks(b, sm)
        }
    }
}

/// Where a text ends as the stream with its source map reports it under
/// `options`.
pub open spec fn source_map_info(b: Seq<u8>, options: MapOptions) -> GeneratedInfo {
    if options.final_source {
        crate::helpers::generated_info_of(b)
    } else {
        end_of_lines(lines_of(b))
    }
}

/// The sources that streaming a text with its source map registers.
pub open spec fn source_map_sources(b: Seq<u8>, sm: SourceMap, options: MapOptions) -> Seq<(u32, Seq<char>, Option<Seq<char>>)> {
    if (options.final_source && at_start(crate::helpers::generated_info_of(b))) || (
    !options.final_source && lines_of(b).len() == 0) {
        seq![]
    } else {
        map_sources(sm)
    }
}

/// The names that streaming a text with its source map registers (none when
/// lines only are kept).
pub open spec fn source_map_names(b: Seq<u8>, sm: SourceMap, options: MapOptions) -> Seq<(u32, Seq<char>)> {
    if !options.columns || (options.final_source && at_start(crate::helpers::generated_info_of(b)))
        || (!options.final_source && lines_of(b).len() == 0) {
        seq![]
    } else {
        map_names(sm)
    }
}

/// When the chunks of a text streamed with its map hold the whole text: when
/// they carry text at all, and, where columns count, the map's mappings are in
/// order of position and the text's columns fit the map's numbers.
pub open spec fn keeps_text(b: Seq<u8>, sm: SourceMap, options: MapOptions) -> bool {
    &&& !options.final_source
    &&& options.columns ==> positions_ok(crate::source_map::decoded(sm.mappings_bytes()))
        && b.len() <= u32::MAX
}

/// Streams a text with its source map.  Unless only mappings are asked for,
/// the chunks' texts, one after another, are the text (see `keeps_text`).
pub fn stream_chunks_of_source_map(source: &str, source_map: &SourceMap, options: &MapOptions) -> (res: ChunkStream)
    requires
        streamable(source.spec_bytes(), *source_map),
        lines_of(source.spec_bytes()).len() + 2 < u32::MAX,
    ensures
        res.info == source_map_info(source.spec_bytes(), *options),
        res.info == crate::helpers::generated_info_of(source.spec_bytes()),
        res.chunks_view() == source_map_chunks(source.spec_bytes(), *source_map, *options),
        res.sources_view() == source_map_sources(source.spec_bytes(), *source_map, *options),
        res.names_view() == source_map_names(source.spec_bytes(), *source_map, *options),
        keeps_text(source.spec_bytes(), *source_map, *options) ==> chunk_texts(res.chunks_view())
            == source@,
{
    proof {
        lemma_end_of_lines(source.spec_bytes());
    }
    let res = if options.columns {
        if options.final_source {
            stream_chunks_of_source_map_final(source, source_map)
        } else {
            stream_chunks_of_source_map_full(source, source_map)
        }
    } else {
        if options.final_source {
            stream_chunks_of_source_map_lines_final(source, source_map)
        } else {
            stream_chunks_of_source_map_lines_full(source, source_map)
        }
    };
    assert(res.sources_view() =~= source_map_sources(source.spec_bytes(), *source_map, *options));
    assert(res.names_view() =~= source_map_names(source.spec_bytes(), *source_map, *options));
    res
}

/// Streams a text with its source map, if it has one, or as plain text.
pub fn stream_chunks_default(source: &str, map: Option<&SourceMap>, options: &MapOptions) -> (res: ChunkStream)
    requires
        lines_of(source.spec_bytes()).len() + 2 < u32::MAX,
        map matches Some(m) ==> streamable(source.spec_bytes(), *m),
    ensures
        match map {
            Some(m) => res.model() == (StreamModel {
                chunks: source_map_chunks(source.spec_bytes(), *m, *options),
                sources: source_map_sources(source.spec_bytes(), *m, *options),
                names: source_map_names(source.spec_bytes(), *m, *options),
                info: source_map_info(source.spec_bytes(), *options),
            }),
            None => res.model() == (StreamModel {
                chunks: raw_chunks(source.spec_bytes()),
                sources: seq![],
                names: seq![],
                info: end_of_lines(lines_of(source.spec_bytes())),
            }),
        },
        (map matches Some(m) ==> keeps_text(source.spec_bytes(), *m, *options))
            ==> chunk_texts(res.chunks_view()) == source@,
{
    match map {
        Some(m) => stream_chunks_of_source_map(source, m, options),
        None => {
            let res = stream_chunks_of_raw_source(source);
            assert(res.sources_view() =~= Seq::<SourceView>::empty());
            assert(res.names_view() =~= Seq::<NameView>::empty());
            res
        },
    }
}


/// Lines one after another.
pub open spec fn lines_text(ls: Seq<Seq<char>>) -> Seq<char>
    decreases ls.len(),
{
    if ls.len() == 0 {
        seq![]
    } else {
        lines_text(ls.drop_last()) + ls.last()
    }
}

proof fn lemma_lines_text_append(a: Seq<Seq<char>>, b: Seq<Seq<char>>)
    ensures
        lines_text(a + b) == lines_text(a) + lines_text(b),
    decreases b.len(),
{
    if b.len() == 0 {
        assert(a + b =~= a);
    } else {
        lemma_lines_text_append(a, b.drop_last());
        assert((a + b).drop_last() =~= a + b.drop_last());
    }
}

pub proof fn lemma_chunk_texts_append(a: Seq<(Option<Seq<char>>, Mapping)>, b: Seq<(Option<Seq<char>>, Mapping)>)
    ensures
        chunk_texts(a + b) == chunk_texts(a) + chunk_texts(b),
    decreases a.len(),
{
    if a.len() == 0 {
        assert(a + b =~= b);
    } else {
        lemma_chunk_texts_append(a.drop_first(), b);
        assert((a + b).drop_first() =~= a.drop_first() + b);
    }
}

pub proof fn lemma_chunk_texts_single(c: (Option<Seq<char>>, Mapping), t: Seq<char>)
    requires
        c.0 == Some(t),
    ensures
        chunk_texts(seq![c]) == t,
{
    assert(seq![c].drop_first() =~= Seq::<(Option<Seq<char>>, Mapping)>::empty());
    assert(chunk_texts(Seq::<(Option<Seq<char>>, Mapping)>::empty()) == Seq::<char>::empty());
    assert(t + Seq::<char>::empty() =~= t);
}

/// Whole lines streamed as plain chunks hold those lines' text.
proof fn lemma_plain_lines_text(ls: Seq<Seq<char>>, from: int, to: int)
    requires
        1 <= from <= to <= ls.len() + 1,
    ensures
        chunk_texts(plain_lines(ls, from, to)) == lines_text(ls.subrange(from - 1, to - 1)),
    decreases to - from,
{
    if to == from {
        assert(plain_lines(ls, from, to) =~= Seq::<(Option<Seq<char>>, Mapping)>::empty());
        assert(ls.subrange(from - 1, to - 1) =~= Seq::<Seq<char>>::empty());
    } else {
        lemma_plain_lines_text(ls, from, to - 1);
        lemma_plain_lines_push(ls, from, to - 1);
        let last = (
            Some(ls[to - 2]),
            Mapping { generated_line: (to - 1) as u32, generated_column: 0, original: None },
        );
        assert(plain_lines(ls, from, to) =~= plain_lines(ls, from, to - 1) + seq![last]);
        lemma_chunk_texts_append(plain_lines(ls, from, to - 1), seq![last]);
        lemma_chunk_texts_single(last, ls[to - 2]);
        assert(ls.subrange(from - 1, to - 1).drop_last() =~= ls.subrange(from - 1, to - 2));
    }
}

/// The chunks of a text without a map hold its lines, one after another.
pub proof fn lemma_raw_chunks_text(b: Seq<u8>)
    ensures
        chunk_texts(raw_chunks(b)) == lines_text(text_lines(b)),
{
    let ls = text_lines(b);
    assert(raw_chunks(b) =~= plain_lines(ls, 1, ls.len() + 1 as int));
    lemma_plain_lines_text(ls, 1, ls.len() + 1 as int);
    assert(ls.subrange(0, ls.len() as int) =~= ls);
}

proof fn lemma_lines_full_run_text(ls: Seq<Seq<char>>, ms: Seq<Mapping>)
    ensures
        1 <= lines_full_run(ls, ms).0 <= ls.len() + 1 || (ms.len() == 0 && ls.len() == 0),
        1 <= lines_full_run(ls, ms).0,
        lines_full_run(ls, ms).0 <= ls.len() + 1 ==> chunk_texts(lines_full_run(ls, ms).1) == lines_text(
            ls.take(lines_full_run(ls, ms).0 - 1),
        ),
    decreases ms.len(),
{
    if ms.len() == 0 {
        assert(ls.take(0) =~= Seq::<Seq<char>>::empty());
    } else {
        lemma_lines_full_run_text(ls, ms.drop_last());
        let (c, cs) = lines_full_run(ls, ms.drop_last());
        let m = ms.last();
        let (c2, cs2) = lines_full_step(ls, c, m);
        lemma_chunk_texts_append(cs, cs2);
        if m.original is Some && !(m.generated_line < c || m.generated_line > ls.len()) {
            let gl = m.generated_line as int;
            let o = m.original.unwrap();
            let line = (
                Some(ls[gl - 1]),
                Mapping {
                    generated_line: m.generated_line,
                    generated_column: 0,
                    original: Some(OriginalLocation { name_index: None, ..o }),
                },
            );
            lemma_plain_lines_text(ls, c, gl);
            lemma_chunk_texts_append(plain_lines(ls, c, gl), seq![line]);
            lemma_chunk_texts_single(line, ls[gl - 1]);
            lemma_lines_text_append(ls.take(c - 1), ls.subrange(c - 1, gl - 1));
            assert(ls.take(c - 1) + ls.subrange(c - 1, gl - 1) =~= ls.take(gl - 1));
            assert(ls.take(gl).drop_last() =~= ls.take(gl - 1));
        } else {
            assert(cs2 =~= Seq::<(Option<Seq<char>>, Mapping)>::empty());
            assert(cs + cs2 =~= cs);
        }
    }
}

/// Streaming with a map, lines only, gives the same text as streaming
/// without one: every line, once, in order.
pub proof fn lemma_lines_full_text(b: Seq<u8>, sm: SourceMap)
    ensures
        chunk_texts(lines_full_chunks(b, sm)) == chunk_texts(raw_chunks(b)),
{
    let ls = text_lines(b);
    lemma_raw_chunks_text(b);
    if ls.len() > 0 {
        let ms = crate::source_map::decoded(sm.mappings_bytes());
        lemma_lines_full_run_text(ls, ms);
        let (c, cs) = lines_full_run(ls, ms);
        lemma_plain_lines_text(ls, c, ls.len() + 1 as int);
        lemma_chunk_texts_append(cs, plain_lines(ls, c, ls.len() + 1 as int));
        lemma_lines_text_append(ls.take(c - 1), ls.subrange(c - 1, ls.len() as int));
        assert(ls.take(c - 1) + ls.subrange(c - 1, ls.len() as int) =~= ls);
    } else {
        assert(lines_full_chunks(b, sm) =~= Seq::<(Option<Seq<char>>, Mapping)>::empty());
        assert(raw_chunks(b) =~= Seq::<(Option<Seq<char>>, Mapping)>::empty());
    }
}


/// Whether line `l1`, column `c1` comes no later than line `l2`, column `c2`.
pub open spec fn pos_le(l1: int, c1: int, l2: int, c2: int) -> bool {
    l1 < l2 || (l1 == l2 && c1 <= c2)
}

/// Whether mappings are on lines from 1 and in order of generated position.
pub open spec fn positions_ok(ms: Seq<Mapping>) -> bool {
    &&& forall|i: int| 0 <= i < ms.len() ==> #[trigger] ms[i].generated_line >= 1
    &&& forall|i: int, j: int|
        0 <= i <= j < ms.len() ==> pos_le(
            #[trigger] ms[i].generated_line as int,
            ms[i].generated_column as int,
            #[trigger] ms[j].generated_line as int,
            ms[j].generated_column as int,
        )
}

/// The text before line `line` (from 1), column `col`: a column past the end
/// of its line, or a line past the last, takes all of it.
pub open spec fn text_upto(ls: Seq<Seq<char>>, line: int, col: int) -> Seq<char> {
    if line > ls.len() {
        lines_text(ls)
    } else {
        lines_text(ls.take(line - 1)) + sub_chars(ls[line - 1], 0, col)
    }
}

/// Whether the lines are short enough for a column to reach past them.
pub open spec fn lines_fit(ls: Seq<Seq<char>>) -> bool {
    forall|k: int| 0 <= k < ls.len() ==> #[trigger] ls[k].len() <= usize::MAX
}

proof fn lemma_sub_chars_split(l: Seq<char>, c1: int, c2: int)
    requires
        0 <= c1 <= c2,
    ensures
        sub_chars(l, 0, c1) + sub_chars(l, c1, c2) == sub_chars(l, 0, c2),
{
    assert(sub_chars(l, 0, c1) + sub_chars(l, c1, c2) =~= sub_chars(l, 0, c2));
}

/// Moving from line `line` to the start of the next adds the rest of it.
proof fn lemma_upto_next_line(ls: Seq<Seq<char>>, line: int, col: int)
    requires
        1 <= line,
        0 <= col,
        lines_fit(ls),
        col <= usize::MAX,
    ensures
        line <= ls.len() ==> text_upto(ls, line, col) + sub_chars(ls[line - 1], col, usize::MAX as int) == text_upto(ls, line + 1, 0),
        line > ls.len() ==> text_upto(ls, line, col) == text_upto(ls, line + 1, 0),
{
    if line <= ls.len() {
        let l = ls[line - 1];
        assert(l.len() <= usize::MAX);
        if col < usize::MAX {
            lemma_sub_chars_split(l, col, usize::MAX as int);
        }
        assert(sub_chars(l, 0, usize::MAX as int) =~= l);
        assert(ls.take(line).drop_last() =~= ls.take(line - 1));
        if line < ls.len() {
            assert(sub_chars(ls[line], 0, 0) =~= Seq::<char>::empty());
            assert(lines_text(ls.take(line)) + Seq::<char>::empty() =~= lines_text(ls.take(line)));
        } else {
            assert(ls.take(line) =~= ls);
        }
    }
}

/// Whole lines from `from` up to before `to` move the text forward by them.
proof fn lemma_upto_skip_lines(ls: Seq<Seq<char>>, from: int, to: int)
    requires
        1 <= from <= to,
    ensures
        text_upto(ls, from, 0) + chunk_texts(plain_lines(ls, from, if to <= ls.len() { to } else { ls.len() + 1 as int })) == text_upto(ls, to, 0),
{
    let top = if to <= ls.len() { to } else { ls.len() + 1 as int };
    if from > ls.len() {
        assert(plain_lines(ls, from, top) =~= Seq::<(Option<Seq<char>>, Mapping)>::empty());
        assert(lines_text(ls) + Seq::<char>::empty() =~= lines_text(ls));
    } else {
        lemma_plain_lines_text(ls, from, top);
        assert(sub_chars(ls[from - 1], 0, 0) =~= Seq::<char>::empty());
        lemma_lines_text_append(ls.take(from - 1), ls.subrange(from - 1, top - 1));
        assert(ls.take(from - 1) + ls.subrange(from - 1, top - 1) =~= ls.take(top - 1));
        assert(lines_text(ls.take(from - 1)) + Seq::<char>::empty() =~= lines_text(ls.take(from - 1)));
        if to <= ls.len() {
            assert(sub_chars(ls[to - 1], 0, 0) =~= Seq::<char>::empty());
            assert(lines_text(ls.take(to - 1)) + Seq::<char>::empty() =~= lines_text(ls.take(to - 1)));
        } else {
            assert(ls.take(top - 1) =~= ls);
        }
    }
}

proof fn lemma_close_text(ls: Seq<Seq<char>>, st: FullCursor, m: Mapping)
    requires
        st.line >= 1,
        pos_le(st.line as int, st.column as int, m.generated_line as int, m.generated_column as int),
        lines_fit(ls),
    ensures
        ({
            let (s1, c1) = close_active(ls, st, m);
            &&& text_upto(ls, st.line as int, st.column as int) + chunk_texts(c1) == text_upto(
                ls,
                s1.line as int,
                s1.column as int,
            )
            &&& pos_le(s1.line as int, s1.column as int, m.generated_line as int, m.generated_column as int)
            &&& s1.line >= 1
        }),
{
    let t0 = text_upto(ls, st.line as int, st.column as int);
    let (s1, c1) = close_active(ls, st, m);
    let k = m.generated_column as int;
    if st.active && st.line <= ls.len() {
        let l = ls[st.line - 1];
        if m.generated_line != st.line {
            lemma_upto_next_line(ls, st.line as int, st.column as int);
            let chunk = sub_chars(l, st.column as int, usize::MAX as int);
            if chunk.len() > 0 {
                lemma_chunk_texts_single(c1[0], chunk);
            } else {
                assert(chunk =~= Seq::<char>::empty());
                assert(t0 + Seq::<char>::empty() =~= t0);
            }
        } else {
            let chunk = sub_chars(l, st.column as int, k);
            lemma_sub_chars_split(l, st.column as int, k);
            assert(lines_text(ls.take(st.line - 1)) + sub_chars(l, 0, st.column as int) + chunk =~= lines_text(
                ls.take(st.line - 1),
            ) + sub_chars(l, 0, k));
            if chunk.len() > 0 {
                lemma_chunk_texts_single(c1[0], chunk);
            } else {
                assert(t0 + Seq::<char>::empty() =~= t0);
            }
        }
    } else {
        assert(t0 + Seq::<char>::empty() =~= t0);
    }
}

proof fn lemma_finish_text(ls: Seq<Seq<char>>, s1: FullCursor, m: Mapping)
    requires
        s1.line >= 1,
        pos_le(s1.line as int, s1.column as int, m.generated_line as int, m.generated_column as int),
        lines_fit(ls),
    ensures
        ({
            let (s2, c2) = finish_line(ls, s1, m);
            &&& text_upto(ls, s1.line as int, s1.column as int) + chunk_texts(c2) == text_upto(
                ls,
                s2.line as int,
                s2.column as int,
            )
            &&& pos_le(s2.line as int, s2.column as int, m.generated_line as int, m.generated_column as int)
            &&& s2.line >= 1
            &&& m.generated_line > s2.line ==> s2.column == 0
            &&& s2.active == s1.active
        }),
{
    let t1 = text_upto(ls, s1.line as int, s1.column as int);
    let (s2, c2) = finish_line(ls, s1, m);
    if m.generated_line > s1.line && s1.column > 0 {
        lemma_upto_next_line(ls, s1.line as int, s1.column as int);
        if s1.line <= ls.len() {
            lemma_chunk_texts_single(c2[0], sub_chars(ls[s1.line - 1], s1.column as int, usize::MAX as int));
        } else {
            assert(t1 + Seq::<char>::empty() =~= t1);
        }
    } else {
        assert(t1 + Seq::<char>::empty() =~= t1);
    }
}

proof fn lemma_skip_text(ls: Seq<Seq<char>>, s2: FullCursor, m: Mapping)
    requires
        s2.line >= 1,
        pos_le(s2.line as int, s2.column as int, m.generated_line as int, m.generated_column as int),
        m.generated_line > s2.line ==> s2.column == 0,
    ensures
        ({
            let (s3, c3) = skip_lines(ls, s2, m);
            &&& text_upto(ls, s2.line as int, s2.column as int) + chunk_texts(c3) == text_upto(
                ls,
                s3.line as int,
                s3.column as int,
            )
            &&& s3.line == m.generated_line
            &&& s3.column <= m.generated_column
            &&& s3.active == s2.active
        }),
{
    let t2 = text_upto(ls, s2.line as int, s2.column as int);
    if m.generated_line > s2.line {
        lemma_upto_skip_lines(ls, s2.line as int, m.generated_line as int);
    } else {
        assert(t2 + Seq::<char>::empty() =~= t2);
    }
}

proof fn lemma_fill_text(ls: Seq<Seq<char>>, s3: FullCursor, m: Mapping)
    requires
        s3.line == m.generated_line,
        s3.line >= 1,
        s3.column <= m.generated_column,
    ensures
        ({
            let (s4, c4) = fill_columns(ls, s3, m);
            &&& text_upto(ls, s3.line as int, s3.column as int) + chunk_texts(c4) == text_upto(
                ls,
                m.generated_line as int,
                m.generated_column as int,
            )
            &&& s4.line == m.generated_line
            &&& s4.column == m.generated_column
        }),
{
    let t3 = text_upto(ls, s3.line as int, s3.column as int);
    let k = m.generated_column as int;
    let (s4, c4) = fill_columns(ls, s3, m);
    if m.generated_column > s3.column {
        if s3.line <= ls.len() {
            let l = ls[s3.line - 1];
            lemma_sub_chars_split(l, s3.column as int, k);
            lemma_chunk_texts_single(c4[0], sub_chars(l, s3.column as int, k));
            assert(lines_text(ls.take(s3.line - 1)) + sub_chars(l, 0, s3.column as int) + sub_chars(
                l,
                s3.column as int,
                k,
            ) =~= lines_text(ls.take(s3.line - 1)) + sub_chars(l, 0, k));
        } else {
            assert(t3 + Seq::<char>::empty() =~= t3);
        }
    } else {
        assert(t3 + Seq::<char>::empty() =~= t3);
    }
}

/// One mapping in order moves the text forward to its position.
#[verifier::rlimit(60)]
proof fn lemma_full_step_text(ls: Seq<Seq<char>>, fl: u32, fc: u32, st: FullCursor, m: Mapping)
    requires
        st.line >= 1,
        m.generated_line >= 1,
        pos_le(st.line as int, st.column as int, m.generated_line as int, m.generated_column as int),
        lines_fit(ls),
        fl <= ls.len() + 1,
        fl == ls.len() + 1 ==> fc == 0,
        st.active ==> pos_le(st.line as int, st.column as int, fl as int, fc as int) && !(st.line == fl
            && st.column == fc),
    ensures
        ({
            let (st2, cs2) = full_stream_step(ls, fl, fc, st, m);
            &&& st2.line == m.generated_line
            &&& st2.column == m.generated_column
            &&& text_upto(ls, st.line as int, st.column as int) + chunk_texts(cs2) == text_upto(
                ls,
                m.generated_line as int,
                m.generated_column as int,
            )
            &&& st2.active ==> pos_le(m.generated_line as int, m.generated_column as int, fl as int, fc as int)
                && !(m.generated_line == fl && m.generated_column == fc)
        }),
{
    let t0 = text_upto(ls, st.line as int, st.column as int);
    let (s1, c1) = close_active(ls, st, m);
    lemma_close_text(ls, st, m);
    let (s2, c2) = finish_line(ls, s1, m);
    lemma_finish_text(ls, s1, m);
    let (s3, c3) = skip_lines(ls, s2, m);
    lemma_skip_text(ls, s2, m);
    let (s4, c4) = fill_columns(ls, s3, m);
    lemma_fill_text(ls, s3, m);
    lemma_chunk_texts_append(c1, c2);
    lemma_chunk_texts_append(c1 + c2, c3);
    lemma_chunk_texts_append(c1 + c2 + c3, c4);
    assert(t0 + chunk_texts(c1 + c2 + c3 + c4) =~= ((t0 + chunk_texts(c1)) + chunk_texts(c2)) + chunk_texts(c3)
        + chunk_texts(c4));
}

/// Mappings in order move the text forward to the last one's position.
proof fn lemma_full_run_text(ls: Seq<Seq<char>>, fl: u32, fc: u32, ms: Seq<Mapping>)
    requires
        positions_ok(ms),
        lines_fit(ls),
        fl <= ls.len() + 1,
        fl == ls.len() + 1 ==> fc == 0,
    ensures
        ({
            let (st, cs) = full_stream_run(ls, fl, fc, ms);
            &&& st.line >= 1
            &&& chunk_texts(cs) == text_upto(ls, st.line as int, st.column as int)
            &&& ms.len() > 0 ==> st.line == ms.last().generated_line && st.column == ms.last().generated_column
            &&& ms.len() == 0 ==> st.line == 1 && st.column == 0 && !st.active
            &&& st.active ==> pos_le(st.line as int, st.column as int, fl as int, fc as int) && !(st.line == fl
                && st.column == fc)
        }),
    decreases ms.len(),
{
    if ms.len() == 0 {
        if ls.len() > 0 {
            assert(ls.take(0) =~= Seq::<Seq<char>>::empty());
            assert(sub_chars(ls[0], 0, 0) =~= Seq::<char>::empty());
            assert(Seq::<char>::empty() + Seq::<char>::empty() =~= Seq::<char>::empty());
        }
    } else {
        let prev = ms.drop_last();
        assert(positions_ok(prev)) by {
            assert forall|i: int| 0 <= i < prev.len() implies #[trigger] prev[i].generated_line >= 1 by {
                assert(prev[i] == ms[i]);
            }
            assert forall|i: int, j: int| 0 <= i <= j < prev.len() implies pos_le(
                #[trigger] prev[i].generated_line as int,
                prev[i].generated_column as int,
                #[trigger] prev[j].generated_line as int,
                prev[j].generated_column as int,
            ) by {
                assert(prev[i] == ms[i] && prev[j] == ms[j]);
            }
        }
        lemma_full_run_text(ls, fl, fc, prev);
        let (st, cs) = full_stream_run(ls, fl, fc, prev);
        let m = ms.last();
        assert(m.generated_line >= 1);
        if prev.len() > 0 {
            assert(prev.last() == ms[ms.len() - 2]);
            assert(pos_le(
                ms[ms.len() - 2].generated_line as int,
                ms[ms.len() - 2].generated_column as int,
                ms[ms.len() - 1].generated_line as int,
                ms[ms.len() - 1].generated_column as int,
            ));
        }
        lemma_full_step_text(ls, fl, fc, st, m);
        let (st2, cs2) = full_stream_step(ls, fl, fc, st, m);
        lemma_chunk_texts_append(cs, cs2);
    }
}

/// Past the end of the text, the text before a position is all of it.
proof fn lemma_upto_past_end(ls: Seq<Seq<char>>, line: int, col: int)
    requires
        1 <= line,
        line > ls.len() || (line == ls.len() && col >= ls[line - 1].len()),
    ensures
        text_upto(ls, line, col) == lines_text(ls),
{
    if line <= ls.len() {
        assert(sub_chars(ls[line - 1], 0, col) =~= ls[line - 1]);
        assert(ls.take(line).drop_last() =~= ls.take(line - 1));
        assert(ls.take(line) =~= ls);
    }
}

/// Streaming with a map, with columns, gives the same text as streaming
/// without one when the map's mappings are in order of position: each part
/// of the text once, in order.
pub proof fn lemma_full_text(b: Seq<u8>, sm: SourceMap)
    requires
        positions_ok(crate::source_map::decoded(sm.mappings_bytes())),
        valid_utf8(b),
        b.len() <= u32::MAX,
        lines_of(b).len() + 2 < u32::MAX,
    ensures
        chunk_texts(full_chunks(b, sm)) == chunk_texts(raw_chunks(b)),
{
    let ls = text_lines(b);
    lemma_line_sizes(b);
    lemma_raw_chunks_text(b);
    if ls.len() == 0 {
        assert(full_chunks(b, sm) =~= Seq::<(Option<Seq<char>>, Mapping)>::empty());
        assert(raw_chunks(b) =~= Seq::<(Option<Seq<char>>, Mapping)>::empty());
    } else {
        let ms = crate::source_map::decoded(sm.mappings_bytes());
        let end = end_of_lines(lines_of(b));
        let fl = end.generated_line;
        let fc = end.generated_column;
        lemma_full_run_text(ls, fl, fc, ms);
        let (st, cs) = full_stream_run(ls, fl, fc, ms);
        let em = Mapping { generated_line: fl, generated_column: fc, original: None };
        let n = ls.len();
        let (st2, cs2) = full_stream_step(ls, fl, fc, st, em);
        lemma_chunk_texts_append(cs, cs2);
        // The end of the text is past every character of it.
        assert(text_upto(ls, fl as int, fc as int) == lines_text(ls)) by {
            if !ends_with_newline(lines_of(b)[n - 1]) {
                assert(ls[n - 1].len() <= lines_of(b)[n - 1].len());
                lemma_upto_past_end(ls, n as int, fc as int);
            } else {
                lemma_upto_past_end(ls, n + 1 as int, 0);
            }
        }
        if pos_le(st.line as int, st.column as int, fl as int, fc as int) {
            lemma_full_step_text(ls, fl, fc, st, em);
        } else {
            assert(text_upto(ls, st.line as int, st.column as int) == lines_text(ls)) by {
                if !ends_with_newline(lines_of(b)[n - 1]) {
                    assert(ls[n - 1].len() <= lines_of(b)[n - 1].len());
                    if st.line as int == n {
                        lemma_upto_past_end(ls, n as int, st.column as int);
                    } else {
                        lemma_upto_past_end(ls, st.line as int, st.column as int);
                    }
                } else {
                    lemma_upto_past_end(ls, st.line as int, st.column as int);
                }
            }
            assert(cs2 =~= Seq::<(Option<Seq<char>>, Mapping)>::empty()) by {
                let (s1, c1) = close_active(ls, st, em);
                let (s2, c2) = finish_line(ls, s1, em);
                let (s3, c3) = skip_lines(ls, s2, em);
                let (s4, c4) = fill_columns(ls, s3, em);
                assert(c1 =~= Seq::<(Option<Seq<char>>, Mapping)>::empty());
                assert(c2 =~= Seq::<(Option<Seq<char>>, Mapping)>::empty());
                assert(c3 =~= Seq::<(Option<Seq<char>>, Mapping)>::empty());
                assert(c4 =~= Seq::<(Option<Seq<char>>, Mapping)>::empty());
            }
            assert(lines_text(ls) + Seq::<char>::empty() =~= lines_text(ls));
        }
    }
}

/// Unless only mappings are asked for, streaming a text with its source map
/// gives the text back: the chunks' texts, one after another, are the text
/// (with columns, when the map's mappings are in order of position and the
/// text's columns fit the map's numbers; see `keeps_text`).
pub proof fn lemma_source_map_text(cs: Seq<char>, sm: SourceMap, options: MapOptions)
    requires
        keeps_text(encode_utf8(cs), sm, options),
        lines_of(encode_utf8(cs)).len() + 2 < u32::MAX,
    ensures
        chunk_texts(source_map_chunks(encode_utf8(cs), sm, options)) == cs,
{
    let b = encode_utf8(cs);
    lemma_raw_text(cs);
    if options.columns {
        encode_utf8_valid_utf8(cs);
        lemma_full_text(b, sm);
    } else {
        lemma_lines_full_text(b, sm);
    }
}

/// The line of the last chunk that has an original, 0 when none has.
pub open spec fn last_original_line(cs: Seq<(Option<Seq<char>>, Mapping)>) -> u32
    decreases cs.len(),
{
    if cs.len() == 0 {
        0
    } else if cs.last().1.original is Some {
        cs.last().1.generated_line
    } else {
        last_original_line(cs.drop_last())
    }
}

proof fn lemma_final_run_active(info: GeneratedInfo, ms: Seq<Mapping>)
    ensures
        final_run(info, ms).0 == last_original_line(final_run(info, ms).1),
    decreases ms.len(),
{
    if ms.len() > 0 {
        lemma_final_run_active(info, ms.drop_last());
        let (a, cs) = final_run(info, ms.drop_last());
        let (a2, cs2) = final_step(info, a, ms.last());
        if cs2.len() == 0 {
            assert(cs + cs2 =~= cs);
        } else {
            assert((cs + cs2).drop_last() =~= cs);
            assert((cs + cs2).last() == cs2[0]);
        }
    }
}

/// When only mappings matter, with columns, one more mapping of the map adds
/// to the chunks: nothing when it lies at or past the end of the text; else
/// itself, without text, when it has an original, or when it has none and the
/// last chunk so far with an original lies on its line (it ends that
/// original there); else nothing.
pub proof fn lemma_final_run_push(info: GeneratedInfo, ms: Seq<Mapping>, m: Mapping)
    ensures
        final_run(info, ms.push(m)).1 == final_run(info, ms).1 + if m.generated_line >= info.generated_line
            && (m.generated_column >= info.generated_column || m.generated_line > info.generated_line) {
            Seq::<(Option<Seq<char>>, Mapping)>::empty()
        } else if m.original is Some || last_original_line(final_run(info, ms).1) == m.generated_line {
            seq![(None::<Seq<char>>, m)]
        } else {
            Seq::<(Option<Seq<char>>, Mapping)>::empty()
        },
{
    lemma_final_run_active(info, ms);
    assert(ms.push(m).drop_last() =~= ms);
}

} // verus!
