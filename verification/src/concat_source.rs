//! Concatenation of sources into one, with the chunk streams of the parts
//! put one after another and their sources and names given global indices.
use vstd::prelude::*;
use vstd::string::StringSliceAdditionalSpecFns;

use crate::helpers::{
    count_newlines, generated_info_of, last_line_start, lemma_count_newlines_concat,
    lemma_last_line_start, lemma_last_line_start_concat, lemma_no_newline_start, lines_of,
    GeneratedInfo, StreamChunks,
};
use crate::index_map::{index_remap_contents, name_index_contents, IndexRemap, NameIndex};
use crate::mapping::{MapOptions, Mapping, OriginalLocation};
use crate::source_map::SourceMap;
use crate::stream::{
    chunk_view, lemma_push_view, name_view, source_map_chunks, source_map_info, source_map_names,
    source_map_sources, source_view, stream_chunks_of_raw_source, stream_chunks_of_source_map,
    streamable, raw_chunks, end_of_lines, stream_chunks_default, chunk_texts, keeps_text,
    lemma_chunk_texts_append, lemma_raw_text, lemma_source_map_text, Chunk, ChunkStream, ChunkView,
    NameEntry, NameView, SourceEntry, SourceView, StreamModel,
};

verus! {

/// What concatenation has gathered after some of the parts: the chunks and
/// registrations so far, the global index of each source and name seen, where
/// the next part starts, whether a mapping still waits to be ended, and
/// whether all positions so far fit in 32 bits.
pub struct ConcatState {
    pub chunks: Seq<ChunkView>,
    pub sources: Seq<SourceView>,
    pub names: Seq<NameView>,
    pub source_mapping: Map<Seq<char>, u32>,
    pub name_mapping: Map<Seq<char>, u32>,
    pub line_offset: int,
    pub column_offset: int,
    pub need_close: bool,
    pub ok: bool,
}

pub open spec fn concat_initial() -> ConcatState {
    ConcatState {
        chunks: seq![],
        sources: seq![],
        names: seq![],
        source_mapping: Map::empty(),
        name_mapping: Map::empty(),
        line_offset: 0,
        column_offset: 0,
        need_close: false,
        ok: true,
    }
}

/// A part's source `e`: a name seen before keeps its global index, a new one
/// gets the next index and is registered.  `remap` takes the part's index to
/// the global one.
pub open spec fn register_source(st: ConcatState, remap: Map<u32, u32>, e: SourceView) -> (ConcatState, Map<u32, u32>) {
    if st.source_mapping.dom().contains(e.1) {
        (st, remap.insert(e.0, st.source_mapping[e.1]))
    } else {
        let g = st.source_mapping.dom().len() as u32;
        (
            ConcatState {
                source_mapping: st.source_mapping.insert(e.1, g),
                sources: st.sources.push((g, e.1, e.2)),
                ..st
            },
            remap.insert(e.0, g),
        )
    }
}

pub open spec fn register_sources(st: ConcatState, es: Seq<SourceView>) -> (ConcatState, Map<u32, u32>)
    decreases es.len(),
{
    if es.len() == 0 {
        (st, Map::empty())
    } else {
        let (st1, r) = register_sources(st, es.drop_last());
        register_source(st1, r, es.last())
    }
}

/// A part's name `e`, as for sources.
pub open spec fn register_name(st: ConcatState, remap: Map<u32, u32>, e: NameView) -> (ConcatState, Map<u32, u32>) {
    if st.name_mapping.dom().contains(e.1) {
        (st, remap.insert(e.0, st.name_mapping[e.1]))
    } else {
        let g = st.name_mapping.dom().len() as u32;
        (
            ConcatState {
                name_mapping: st.name_mapping.insert(e.1, g),
                names: st.names.push((g, e.1)),
                ..st
            },
            remap.insert(e.0, g),
        )
    }
}

pub open spec fn register_names(st: ConcatState, es: Seq<NameView>) -> (ConcatState, Map<u32, u32>)
    decreases es.len(),
{
    if es.len() == 0 {
        (st, Map::empty())
    } else {
        let (st1, r) = register_names(st, es.drop_last());
        register_name(st1, r, es.last())
    }
}

/// The value under `k`, if any.
pub open spec fn lookup(m: Map<u32, u32>, k: u32) -> Option<u32> {
    if m.dom().contains(k) {
        Some(m[k])
    } else {
        None
    }
}

/// Ends the mapping left waiting by the previous part, unless this chunk
/// starts right where that part ended.
pub open spec fn close_before(st: ConcatState, m: Mapping) -> ConcatState {
    if st.need_close {
        if m.generated_line != 1 || m.generated_column != 0 {
            ConcatState {
                chunks: st.chunks.push(
                    (
                        None,
                        Mapping {
                            generated_line: (st.line_offset + 1) as u32,
                            generated_column: st.column_offset as u32,
                            original: None,
                        },
                    ),
                ),
                need_close: false,
                ok: st.ok && st.line_offset + 1 <= u32::MAX,
                ..st
            }
        } else {
            ConcatState { need_close: false, ..st }
        }
    } else {
        st
    }
}

/// One chunk of a part, moved to where the part starts, its source and name
/// given their global indices.  A mapping whose source the part did not
/// register becomes a mapping to nowhere; with `final_source`, only mappings
/// to a source are kept, without their text.  `last` is the line of the
/// last chunk that kept a source (0 when it did not).
pub open spec fn concat_chunk(
    st: ConcatState,
    options: MapOptions,
    src: Map<u32, u32>,
    nam: Map<u32, u32>,
    c: ChunkView,
) -> (ConcatState, int) {
    let m = c.1;
    let line = m.generated_line + st.line_offset;
    let column = if m.generated_line == 1 {
        m.generated_column + st.column_offset
    } else {
        m.generated_column as int
    };
    let st1 = close_before(st, m);
    let rsi = match m.original {
        Some(o) => lookup(src, o.source_index),
        None => None,
    };
    let rni = match m.original {
        Some(o) => match o.name_index {
            Some(n) => lookup(nam, n),
            None => None,
        },
        None => None,
    };
    let last = if rsi is None { 0 } else { m.generated_line as int };
    let out: Seq<ChunkView> = match (rsi, m.original) {
        (Some(g), Some(o)) => seq![
            (
                if options.final_source { None } else { c.0 },
                Mapping {
                    generated_line: line as u32,
                    generated_column: column as u32,
                    original: Some(
                        OriginalLocation {
                            source_index: g,
                            original_line: o.original_line,
                            original_column: o.original_column,
                            name_index: rni,
                        },
                    ),
                },
            ),
        ],
        _ => if options.final_source {
            seq![]
        } else {
            seq![
                (
                    c.0,
                    Mapping {
                        generated_line: line as u32,
                        generated_column: column as u32,
                        original: None,
                    },
                ),
            ]
        },
    };
    (
        ConcatState {
            chunks: st1.chunks + out,
            ok: st1.ok && line <= u32::MAX && column <= u32::MAX,
            ..st1
        },
        last,
    )
}

pub open spec fn concat_chunks(
    st: ConcatState,
    options: MapOptions,
    src: Map<u32, u32>,
    nam: Map<u32, u32>,
    cs: Seq<ChunkView>,
) -> (ConcatState, int)
    decreases cs.len(),
{
    if cs.len() == 0 {
        (st, 0)
    } else {
        let (st1, _) = concat_chunks(st, options, src, nam, cs.drop_last());
        concat_chunk(st1, options, src, nam, cs.last())
    }
}

/// One part: its sources and names registered, its chunks moved, then the
/// start of the next part advanced past where this part ends.  With
/// `final_source`, a part whose last kept mapping lies on its last line leaves
/// that mapping waiting to be ended.
pub open spec fn concat_part(st: ConcatState, options: MapOptions, part: StreamModel) -> ConcatState {
    let (st1, src) = register_sources(st, part.sources);
    let (st2, nam) = register_names(st1, part.names);
    let (st3, last) = concat_chunks(st2, options, src, nam, part.chunks);
    let gl = part.info.generated_line;
    let gc = part.info.generated_column;
    let st4 = if st3.need_close && (gl != 1 || gc != 0) {
        ConcatState {
            chunks: st3.chunks.push(
                (
                    None,
                    Mapping {
                        generated_line: (st3.line_offset + 1) as u32,
                        generated_column: st3.column_offset as u32,
                        original: None,
                    },
                ),
            ),
            need_close: false,
            ok: st3.ok && st3.line_offset + 1 <= u32::MAX,
            ..st3
        }
    } else {
        st3
    };
    let column_offset = if gl > 1 { gc as int } else { st4.column_offset + gc };
    ConcatState {
        column_offset,
        need_close: st4.need_close || (options.final_source && last == gl),
        line_offset: st4.line_offset + gl - 1,
        ok: st4.ok && gl >= 1 && column_offset <= u32::MAX && st4.line_offset + gl - 1 + 1
            <= u32::MAX,
        ..st4
    }
}

pub open spec fn concat_parts(options: MapOptions, parts: Seq<StreamModel>) -> ConcatState
    decreases parts.len(),
{
    if parts.len() == 0 {
        concat_initial()
    } else {
        concat_part(concat_parts(options, parts.drop_last()), options, parts.last())
    }
}

/// The stream of a concatenation, from the streams of its parts.  A single
/// part is streamed as it is.
pub open spec fn concat_model(options: MapOptions, parts: Seq<StreamModel>) -> StreamModel {
    if parts.len() == 1 {
        parts[0]
    } else {
        let st = concat_parts(options, parts);
        StreamModel {
            chunks: st.chunks,
            sources: st.sources,
            names: st.names,
            info: GeneratedInfo {
                generated_line: (st.line_offset + 1) as u32,
                generated_column: st.column_offset as u32,
            },
        }
    }
}

/// Whether concatenating the parts keeps every position within 32 bits (and
/// every part ends on a line from 1 on).
pub open spec fn concat_fits(options: MapOptions, parts: Seq<StreamModel>) -> bool {
    parts.len() == 1 || concat_parts(options, parts).ok
}

proof fn lemma_concat_chunks_ok_prefix(
    st: ConcatState,
    options: MapOptions,
    src: Map<u32, u32>,
    nam: Map<u32, u32>,
    cs: Seq<ChunkView>,
    k: int,
)
    requires
        0 <= k <= cs.len(),
        concat_chunks(st, options, src, nam, cs).0.ok,
    ensures
        concat_chunks(st, options, src, nam, cs.take(k)).0.ok,
    decreases cs.len(),
{
    if k == cs.len() {
        assert(cs.take(k) =~= cs);
    } else {
        assert(cs.take(k) =~= cs.drop_last().take(k));
        lemma_concat_chunks_ok_prefix(st, options, src, nam, cs.drop_last(), k);
    }
}

proof fn lemma_concat_parts_ok_prefix(options: MapOptions, parts: Seq<StreamModel>, k: int)
    requires
        0 <= k <= parts.len(),
        concat_parts(options, parts).ok,
    ensures
        concat_parts(options, parts.take(k)).ok,
    decreases parts.len(),
{
    if k == parts.len() {
        assert(parts.take(k) =~= parts);
    } else {
        assert(parts.take(k) =~= parts.drop_last().take(k));
        let st = concat_parts(options, parts.drop_last());
        let part = parts.last();
        let (st1, src) = register_sources(st, part.sources);
        let (st2, nam) = register_names(st1, part.names);
        lemma_register_sources_ok(st, part.sources);
        lemma_register_names_ok(st1, part.names);
        lemma_concat_chunks_ok_prefix(st2, options, src, nam, part.chunks, 0);
        assert(part.chunks.take(0) =~= Seq::<ChunkView>::empty());
        lemma_concat_parts_ok_prefix(options, parts.drop_last(), k);
    }
}

proof fn lemma_register_sources_ok(st: ConcatState, es: Seq<SourceView>)
    ensures
        register_sources(st, es).0.ok == st.ok,
        register_sources(st, es).0.line_offset == st.line_offset,
        register_sources(st, es).0.column_offset == st.column_offset,
        register_sources(st, es).0.need_close == st.need_close,
        register_sources(st, es).0.chunks == st.chunks,
    decreases es.len(),
{
    if es.len() > 0 {
        lemma_register_sources_ok(st, es.drop_last());
    }
}

proof fn lemma_register_names_ok(st: ConcatState, es: Seq<NameView>)
    ensures
        register_names(st, es).0.ok == st.ok,
        register_names(st, es).0.line_offset == st.line_offset,
        register_names(st, es).0.column_offset == st.column_offset,
        register_names(st, es).0.need_close == st.need_close,
        register_names(st, es).0.chunks == st.chunks,
        register_names(st, es).0.need_close == st.need_close,
        register_names(st, es).0.line_offset == st.line_offset,
        register_names(st, es).0.column_offset == st.column_offset,
    decreases es.len(),
{
    if es.len() > 0 {
        lemma_register_names_ok(st, es.drop_last());
    }
}

proof fn lemma_concat_chunks_mono(
    st: ConcatState,
    options: MapOptions,
    src: Map<u32, u32>,
    nam: Map<u32, u32>,
    cs: Seq<ChunkView>,
)
    ensures
        concat_chunks(st, options, src, nam, cs).0.ok ==> st.ok,
        concat_chunks(st, options, src, nam, cs).0.line_offset == st.line_offset,
        concat_chunks(st, options, src, nam, cs).0.column_offset == st.column_offset,
    decreases cs.len(),
{
    if cs.len() > 0 {
        lemma_concat_chunks_mono(st, options, src, nam, cs.drop_last());
    }
}

/// The exec side of a concatenation in progress.
struct Concatenation {
    chunks: Vec<Chunk>,
    sources: Vec<SourceEntry>,
    names: Vec<NameEntry>,
    source_mapping: NameIndex,
    name_mapping: NameIndex,
    line_offset: u32,
    column_offset: u32,
    need_close: bool,
}

impl Concatenation {
    spec fn state(&self) -> ConcatState {
        ConcatState {
            chunks: self.chunks@.map_values(|c: Chunk| chunk_view(c)),
            sources: self.sources@.map_values(|e: SourceEntry| source_view(e)),
            names: self.names@.map_values(|e: NameEntry| name_view(e)),
            source_mapping: name_index_contents(self.source_mapping),
            name_mapping: name_index_contents(self.name_mapping),
            line_offset: self.line_offset as int,
            column_offset: self.column_offset as int,
            need_close: self.need_close,
            ok: true,
        }
    }

    spec fn wf(&self) -> bool {
        &&& name_index_contents(self.source_mapping).dom().finite()
        &&& name_index_contents(self.name_mapping).dom().finite()
    }

    fn add_source(&mut self, remap: &mut IndexRemap, e: &SourceEntry)
        requires
            old(self).wf(),
        ensures
            final(self).wf(),
            (final(self).state(), index_remap_contents(*final(remap))) == register_source(
                old(self).state(),
                index_remap_contents(*old(remap)),
                source_view(*e),
            ),
    {
        match self.source_mapping.get(e.source.as_str()) {
            Some(g) => {
                remap.insert_index(e.index, g);
            },
            None => {
                let g = #[verifier::truncate] (self.source_mapping.len() as u32);
                self.source_mapping.insert(e.source.clone(), g);
                let content = match &e.content {
                    Some(c) => Some(c.clone()),
                    None => None,
                };
                let entry = SourceEntry { index: g, source: e.source.clone(), content };
                let ghost before = self.sources@;
                self.sources.push(entry);
                assert(self.sources@.map_values(|e: SourceEntry| source_view(e)) =~= before.map_values(
                    |e: SourceEntry| source_view(e),
                ).push(source_view(entry)));
                remap.insert_index(e.index, g);
            },
        }
    }

    fn add_name(&mut self, remap: &mut IndexRemap, e: &NameEntry)
        requires
            old(self).wf(),
        ensures
            final(self).wf(),
            (final(self).state(), index_remap_contents(*final(remap))) == register_name(
                old(self).state(),
                index_remap_contents(*old(remap)),
                name_view(*e),
            ),
    {
        match self.name_mapping.get(e.name.as_str()) {
            Some(g) => {
                remap.insert_index(e.index, g);
            },
            None => {
                let g = #[verifier::truncate] (self.name_mapping.len() as u32);
                self.name_mapping.insert(e.name.clone(), g);
                let entry = NameEntry { index: g, name: e.name.clone() };
                let ghost before = self.names@;
                self.names.push(entry);
                assert(self.names@.map_values(|e: NameEntry| name_view(e)) =~= before.map_values(
                    |e: NameEntry| name_view(e),
                ).push(name_view(entry)));
                remap.insert_index(e.index, g);
            },
        }
    }

    fn push(&mut self, c: Chunk)
        ensures
            final(self).state() == (ConcatState {
                chunks: old(self).state().chunks.push(chunk_view(c)),
                ..old(self).state()
            }),
            final(self).source_mapping == old(self).source_mapping,
            final(self).name_mapping == old(self).name_mapping,
    {
        proof {
            lemma_push_view(self.chunks@, c);
        }
        self.chunks.push(c);
    }

    fn add_chunk(&mut self, options: &MapOptions, src: &IndexRemap, nam: &IndexRemap, c: &Chunk) -> (last: u32)
        requires
            old(self).wf(),
            concat_chunk(
                old(self).state(),
                *options,
                index_remap_contents(*src),
                index_remap_contents(*nam),
                chunk_view(*c),
            ).0.ok,
        ensures
            final(self).wf(),
            (final(self).state(), last as int) == concat_chunk(
                old(self).state(),
                *options,
                index_remap_contents(*src),
                index_remap_contents(*nam),
                chunk_view(*c),
            ),
    {
        let ghost st0 = self.state();
        let m = c.mapping;
        let line = m.generated_line + self.line_offset;
        let column = if m.generated_line == 1 {
            m.generated_column + self.column_offset
        } else {
            m.generated_column
        };
        if self.need_close {
            if m.generated_line != 1 || m.generated_column != 0 {
                let close = Chunk {
                    text: None,
                    mapping: Mapping {
                        generated_line: self.line_offset + 1,
                        generated_column: self.column_offset,
                        original: None,
                    },
                };
                self.push(close);
            }
            self.need_close = false;
        }
        assert(self.state().chunks == close_before(st0, m).chunks);
        let result_source_index = match m.original {
            Some(o) => src.get_index(o.source_index),
            None => None,
        };
        let result_name_index = match m.original {
            Some(o) => match o.name_index {
                Some(n) => nam.get_index(n),
                None => None,
            },
            None => None,
        };
        let last = if result_source_index.is_none() {
            0
        } else {
            m.generated_line
        };
        let text = match &c.text {
            Some(t) => Some(t.clone()),
            None => None,
        };
        match (result_source_index, m.original) {
            (Some(g), Some(o)) => {
                self.push(
                    Chunk {
                        text: if options.final_source {
                            None
                        } else {
                            text
                        },
                        mapping: Mapping {
                            generated_line: line,
                            generated_column: column,
                            original: Some(
                                OriginalLocation {
                                    source_index: g,
                                    original_line: o.original_line,
                                    original_column: o.original_column,
                                    name_index: result_name_index,
                                },
                            ),
                        },
                    },
                );
            },
            _ => {
                if !options.final_source {
                    self.push(
                        Chunk {
                            text,
                            mapping: Mapping {
                                generated_line: line,
                                generated_column: column,
                                original: None,
                            },
                        },
                    );
                }
            },
        }
        proof {
            let (st1, l1) = concat_chunk(
                st0,
                *options,
                index_remap_contents(*src),
                index_remap_contents(*nam),
                chunk_view(*c),
            );
            assert(self.state().chunks =~= st1.chunks);
        }
        last
    }

    fn add_part(&mut self, options: &MapOptions, part: &ChunkStream)
        requires
            old(self).wf(),
            concat_part(old(self).state(), *options, part.model()).ok,
        ensures
            final(self).wf(),
            final(self).state() == concat_part(old(self).state(), *options, part.model()),
    {
        let ghost st0 = self.state();
        let ghost pm = part.model();
        let mut src = IndexRemap::new_remap();
        let ns = part.sources.len();
        assert(index_remap_contents(src) =~= Map::<u32, u32>::empty());
        for j in 0..ns
            invariant
                ns == part.sources@.len(),
                pm == part.model(),
                self.wf(),
                (self.state(), index_remap_contents(src)) == register_sources(
                    st0,
                    pm.sources.take(j as int),
                ),
        {
            assert(pm.sources.take(j + 1).drop_last() =~= pm.sources.take(j as int));
            assert(pm.sources[j as int] == source_view(part.sources@[j as int]));
            self.add_source(&mut src, &part.sources[j]);
        }
        assert(pm.sources.take(ns as int) =~= pm.sources);
        let ghost st1 = self.state();
        let mut nam = IndexRemap::new_remap();
        let nn = part.names.len();
        assert(index_remap_contents(nam) =~= Map::<u32, u32>::empty());
        for j in 0..nn
            invariant
                nn == part.names@.len(),
                pm == part.model(),
                self.wf(),
                (self.state(), index_remap_contents(nam)) == register_names(
                    st1,
                    pm.names.take(j as int),
                ),
        {
            assert(pm.names.take(j + 1).drop_last() =~= pm.names.take(j as int));
            assert(pm.names[j as int] == name_view(part.names@[j as int]));
            self.add_name(&mut nam, &part.names[j]);
        }
        assert(pm.names.take(nn as int) =~= pm.names);
        let ghost st2 = self.state();
        proof {
            lemma_register_sources_ok(st0, pm.sources);
            lemma_register_names_ok(st1, pm.names);
        }
        let ghost sr = index_remap_contents(src);
        let ghost nr = index_remap_contents(nam);
        let nc = part.chunks.len();
        let mut last: u32 = 0;
        proof {
            let (st3, l3) = concat_chunks(st2, *options, sr, nr, pm.chunks);
            lemma_concat_chunks_mono(st2, *options, sr, nr, pm.chunks);
            assert(pm.chunks.take(0) =~= Seq::<ChunkView>::empty());
        }
        for j in 0..nc
            invariant
                nc == part.chunks@.len(),
                pm == part.model(),
                self.wf(),
                sr == index_remap_contents(src),
                nr == index_remap_contents(nam),
                concat_chunks(st2, *options, sr, nr, pm.chunks).0.ok,
                (self.state(), last as int) == concat_chunks(
                    st2,
                    *options,
                    sr,
                    nr,
                    pm.chunks.take(j as int),
                ),
        {
            assert(pm.chunks.take(j + 1).drop_last() =~= pm.chunks.take(j as int));
            assert(pm.chunks[j as int] == chunk_view(part.chunks@[j as int]));
            proof {
                lemma_concat_chunks_ok_prefix(st2, *options, sr, nr, pm.chunks, j + 1);
            }
            last = self.add_chunk(options, &src, &nam, &part.chunks[j]);
        }
        assert(pm.chunks.take(nc as int) =~= pm.chunks);
        let gl = part.info.generated_line;
        let gc = part.info.generated_column;
        if self.need_close && (gl != 1 || gc != 0) {
            let close = Chunk {
                text: None,
                mapping: Mapping {
                    generated_line: self.line_offset + 1,
                    generated_column: self.column_offset,
                    original: None,
                },
            };
            self.push(close);
            self.need_close = false;
        }
        if gl > 1 {
            self.column_offset = gc;
        } else {
            self.column_offset = self.column_offset + gc;
        }
        self.need_close = self.need_close || (options.final_source && last == gl);
        self.line_offset = self.line_offset + gl - 1;
    }
}

/// Puts streams of parts one after another (see [`concat_model`]).
pub fn concat_streams(parts: Vec<ChunkStream>, options: &MapOptions) -> (res: ChunkStream)
    requires
        concat_fits(*options, parts@.map_values(|p: ChunkStream| p.model())),
    ensures
        res.model() == concat_model(*options, parts@.map_values(|p: ChunkStream| p.model())),
{
    let ghost models = parts@.map_values(|p: ChunkStream| p.model());
    if parts.len() == 1 {
        let mut parts = parts;
        let only = parts.pop().unwrap();
        return only;
    }
    let mut c = Concatenation {
        chunks: Vec::new(),
        sources: Vec::new(),
        names: Vec::new(),
        source_mapping: NameIndex::new(),
        name_mapping: NameIndex::new(),
        line_offset: 0,
        column_offset: 0,
        need_close: false,
    };
    assert(c.state() =~= concat_initial()) by {
        assert(c.chunks@.map_values(|c: Chunk| chunk_view(c)) =~= Seq::<ChunkView>::empty());
        assert(c.sources@.map_values(|e: SourceEntry| source_view(e)) =~= Seq::<SourceView>::empty());
        assert(c.names@.map_values(|e: NameEntry| name_view(e)) =~= Seq::<NameView>::empty());
        assert(name_index_contents(c.source_mapping) =~= Map::<Seq<char>, u32>::empty());
        assert(name_index_contents(c.name_mapping) =~= Map::<Seq<char>, u32>::empty());
    }
    assert(models.take(0) =~= Seq::<StreamModel>::empty());
    let n = parts.len();
    for i in 0..n
        invariant
            n == parts@.len(),
            models == parts@.map_values(|p: ChunkStream| p.model()),
            concat_parts(*options, models).ok,
            c.wf(),
            c.state() == concat_parts(*options, models.take(i as int)),
    {
        assert(models.take(i + 1).drop_last() =~= models.take(i as int));
        proof {
            lemma_concat_parts_ok_prefix(*options, models, i + 1);
        }
        c.add_part(options, &parts[i]);
    }
    assert(models.take(n as int) =~= models);
    let res = ChunkStream {
        chunks: c.chunks,
        sources: c.sources,
        names: c.names,
        info: GeneratedInfo { generated_line: c.line_offset + 1, generated_column: c.column_offset },
    };
    res
}

/// A source whose chunks can be streamed: plain text, text with its source
/// map, or a concatenation of sources.
#[derive(Debug, PartialEq, Eq, Hash)]
pub enum ChunkSource {
    Raw(String),
    Mapped(String, SourceMap),
    Concat(ConcatSource),
}

/// Concatenates multiple sources into a single one.
#[derive(Debug, Default, PartialEq, Eq, Hash)]
pub struct ConcatSource {
    pub children: Vec<ChunkSource>,
}

/// The bytes of a string's characters.
pub open spec fn bytes_of(t: Seq<char>) -> Seq<u8> {
    vstd::utf8::encode_utf8(t)
}

/// The stream of a source under `options`.
pub open spec fn source_model(s: ChunkSource, options: MapOptions) -> StreamModel
    decreases s,
{
    match s {
        ChunkSource::Raw(t) => StreamModel {
            chunks: raw_chunks(bytes_of(t@)),
            sources: seq![],
            names: seq![],
            info: end_of_lines(lines_of(bytes_of(t@))),
        },
        ChunkSource::Mapped(t, m) => StreamModel {
            chunks: source_map_chunks(bytes_of(t@), m, options),
            sources: source_map_sources(bytes_of(t@), m, options),
            names: source_map_names(bytes_of(t@), m, options),
            info: source_map_info(bytes_of(t@), options),
        },
        ChunkSource::Concat(c) => concat_model(options, children_models(c.children@, options)),
    }
}

/// The streams of a list of sources.
pub open spec fn children_models(cs: Seq<ChunkSource>, options: MapOptions) -> Seq<StreamModel>
    decreases cs,
{
    if cs.len() == 0 {
        seq![]
    } else {
        children_models(cs.drop_last(), options).push(source_model(cs.last(), options))
    }
}

/// Whether a source can be streamed under `options` without positions
/// leaving 32 bits and with a source map that decodes.
pub open spec fn source_ok(s: ChunkSource, options: MapOptions) -> bool
    decreases s,
{
    match s {
        ChunkSource::Raw(t) => lines_of(bytes_of(t@)).len() + 2 < u32::MAX,
        ChunkSource::Mapped(t, m) => streamable(bytes_of(t@), m) && lines_of(bytes_of(t@)).len()
            + 2 < u32::MAX,
        ChunkSource::Concat(c) => children_ok(c.children@, options) && concat_fits(
            options,
            children_models(c.children@, options),
        ),
    }
}

pub open spec fn children_ok(cs: Seq<ChunkSource>, options: MapOptions) -> bool
    decreases cs,
{
    if cs.len() == 0 {
        true
    } else {
        children_ok(cs.drop_last(), options) && source_ok(cs.last(), options)
    }
}

proof fn lemma_children_len(cs: Seq<ChunkSource>, options: MapOptions)
    ensures
        children_models(cs, options).len() == cs.len(),
    decreases cs.len(),
{
    if cs.len() > 0 {
        lemma_children_len(cs.drop_last(), options);
    }
}

proof fn lemma_children_ok(cs: Seq<ChunkSource>, options: MapOptions, k: int)
    requires
        0 <= k < cs.len(),
        children_ok(cs, options),
    ensures
        source_ok(cs[k], options),
    decreases cs.len(),
{
    if k < cs.len() - 1 {
        lemma_children_ok(cs.drop_last(), options, k);
    }
}

proof fn lemma_children(cs: Seq<ChunkSource>, options: MapOptions, k: int)
    requires
        0 <= k <= cs.len(),
    ensures
        children_models(cs.take(k), options).len() == k,
        k < cs.len() ==> children_models(cs.take(k + 1), options) == children_models(
            cs.take(k),
            options,
        ).push(source_model(cs[k], options)),
        children_ok(cs, options) && k < cs.len() ==> source_ok(cs[k], options),
        k == cs.len() ==> cs.take(k) == cs,
{
    lemma_children_len(cs.take(k), options);
    if k < cs.len() {
        assert(cs.take(k + 1).drop_last() =~= cs.take(k));
        assert(cs.take(k + 1).last() == cs[k]);
        if children_ok(cs, options) {
            lemma_children_ok(cs, options, k);
        }
    } else {
        assert(cs.take(k) =~= cs);
    }
}

impl ChunkSource {
    /// Streams the chunks of this source.
    pub fn stream_chunks(&self, options: &MapOptions) -> (res: ChunkStream)
        requires
            source_ok(*self, *options),
        ensures
            res.model() == source_model(*self, *options),
            texts_kept(*self, *options) ==> chunk_texts(res.chunks_view()) == source_text(*self),
            bytes_of(source_text(*self)).len() < u32::MAX ==> res.info == generated_info_of(
                bytes_of(source_text(*self)),
            ),
        decreases self,
    {
        proof {
            if texts_kept(*self, *options) {
                lemma_stream_source_text(*self, *options);
            }
            if bytes_of(source_text(*self)).len() < u32::MAX {
                lemma_stream_source_end(*self, *options);
            }
        }
        match self {
            ChunkSource::Raw(t) => stream_chunks_default(t.as_str(), None, options),
            ChunkSource::Mapped(t, m) => stream_chunks_default(t.as_str(), Some(m), options),
            ChunkSource::Concat(c) => c.stream_chunks(options),
        }
    }
}

impl ConcatSource {
    /// The sources concatenated, in order.
    pub closed spec fn children(&self) -> Seq<ChunkSource> {
        self.children@
    }

    /// Concatenates `children`.
    pub fn new(children: Vec<ChunkSource>) -> (res: Self)
        ensures
            res.children() == children@,
    {
        ConcatSource { children }
    }

    /// Adds a source at the end.
    pub fn add(&mut self, item: ChunkSource)
        ensures
            final(self).children() == old(self).children().push(item),
            source_text(ChunkSource::Concat(*final(self))) == source_text(ChunkSource::Concat(*old(self)))
                + source_text(item),
    {
        let ghost before = self.children@;
        self.children.push(item);
        assert(self.children@.drop_last() =~= before);
    }

    /// Streams the chunks of the concatenation.
    pub fn stream_chunks(&self, options: &MapOptions) -> (res: ChunkStream)
        requires
            source_ok(ChunkSource::Concat(*self), *options),
        ensures
            res.model() == source_model(ChunkSource::Concat(*self), *options),
            texts_kept(ChunkSource::Concat(*self), *options) ==> chunk_texts(res.chunks_view())
                == source_text(ChunkSource::Concat(*self)),
            bytes_of(source_text(ChunkSource::Concat(*self))).len() < u32::MAX ==> res.info
                == generated_info_of(bytes_of(source_text(ChunkSource::Concat(*self)))),
        decreases self,
    {
        proof {
            if texts_kept(ChunkSource::Concat(*self), *options) {
                lemma_stream_source_text(ChunkSource::Concat(*self), *options);
            }
            if bytes_of(source_text(ChunkSource::Concat(*self))).len() < u32::MAX {
                lemma_stream_source_end(ChunkSource::Concat(*self), *options);
            }
        }
        let ghost cs = self.children@;
        let mut parts: Vec<ChunkStream> = Vec::new();
        let n = self.children.len();
        for i in 0..n
            invariant
                n == self.children@.len(),
                cs == self.children@,
                children_ok(cs, *options),
                parts@.map_values(|p: ChunkStream| p.model()) == children_models(
                    cs.take(i as int),
                    *options,
                ),
        {
            proof {
                lemma_children(cs, *options, i as int);
                assert(decreases_to!(self => self.children));
                assert(decreases_to!(self.children => self.children@));
                assert(decreases_to!(self.children@ => self.children@[i as int]));
            }
            let p = self.children[i].stream_chunks(options);
            let ghost before = parts@;
            parts.push(p);
            assert(parts@.map_values(|p: ChunkStream| p.model()) =~= before.map_values(
                |p: ChunkStream| p.model(),
            ).push(p.model()));
        }
        proof {
            lemma_children(cs, *options, n as int);
        }
        concat_streams(parts, options)
    }
}

/// The text of a source: a concatenation's is its parts' texts one after
/// another.
pub open spec fn source_text(s: ChunkSource) -> Seq<char>
    decreases s,
{
    match s {
        ChunkSource::Raw(t) => t@,
        ChunkSource::Mapped(t, _) => t@,
        ChunkSource::Concat(c) => children_text(c.children@),
    }
}

pub open spec fn children_text(cs: Seq<ChunkSource>) -> Seq<char>
    decreases cs,
{
    if cs.len() == 0 {
        seq![]
    } else {
        children_text(cs.drop_last()) + source_text(cs.last())
    }
}

proof fn lemma_children_text(cs: Seq<ChunkSource>, k: int)
    requires
        0 <= k < cs.len(),
    ensures
        children_text(cs.take(k + 1)) == children_text(cs.take(k)) + source_text(cs[k]),
{
    assert(cs.take(k + 1).drop_last() =~= cs.take(k));
}

impl ChunkSource {
    /// The text of this source.
    pub fn source(&self) -> (res: String)
        ensures
            res@ == source_text(*self),
        decreases self,
    {
        match self {
            ChunkSource::Raw(t) => t.clone(),
            ChunkSource::Mapped(t, _) => t.clone(),
            ChunkSource::Concat(c) => c.source(),
        }
    }
}

impl ConcatSource {
    /// The texts of the parts, one after another.
    pub fn source(&self) -> (res: String)
        ensures
            res@ == source_text(ChunkSource::Concat(*self)),
        decreases self,
    {
        let ghost cs = self.children@;
        let mut res = String::new();
        let n = self.children.len();
        assert(cs.take(0) =~= Seq::<ChunkSource>::empty());
        for i in 0..n
            invariant
                n == self.children@.len(),
                cs == self.children@,
                res@ == children_text(cs.take(i as int)),
        {
            proof {
                lemma_children_text(cs, i as int);
                assert(decreases_to!(self => self.children));
                assert(decreases_to!(self.children => self.children@));
                assert(decreases_to!(self.children@ => self.children@[i as int]));
            }
            let t = self.children[i].source();
            res.append(t.as_str());
        }
        assert(cs.take(n as int) =~= cs);
        res
    }

    /// The bytes of the text of the parts, one after another.
    pub fn buffer(&self) -> (res: Vec<u8>)
        ensures
            res@ == bytes_of(source_text(ChunkSource::Concat(*self))),
    {
        let text = self.source();
        let bytes = text.as_str().as_bytes();
        let mut res: Vec<u8> = Vec::new();
        let n = bytes.len();
        for i in 0..n
            invariant
                n == bytes@.len(),
                res@ == bytes@.take(i as int),
        {
            res.push(bytes[i]);
            assert(res@ =~= bytes@.take(i + 1));
        }
        assert(bytes@.take(n as int) =~= bytes@);
        res
    }

    /// The length in bytes of the text.
    pub fn size(&self) -> (res: usize)
        ensures
            res == bytes_of(source_text(ChunkSource::Concat(*self))).len(),
    {
        let text = self.source();
        text.as_str().as_bytes().len()
    }
}

/// Whether streaming a source under `options` keeps all of its text: chunks
/// carry text, and every source map inside keeps it (see `keeps_text`).
pub open spec fn texts_kept(s: ChunkSource, options: MapOptions) -> bool
    decreases s,
{
    match s {
        ChunkSource::Raw(_) => !options.final_source,
        ChunkSource::Mapped(t, m) => keeps_text(bytes_of(t@), m, options),
        ChunkSource::Concat(c) => !options.final_source && children_texts_kept(c.children@, options),
    }
}

pub open spec fn children_texts_kept(cs: Seq<ChunkSource>, options: MapOptions) -> bool
    decreases cs,
{
    if cs.len() == 0 {
        true
    } else {
        children_texts_kept(cs.drop_last(), options) && texts_kept(cs.last(), options)
    }
}

/// The chunks' texts of streams, one stream after another.
pub open spec fn parts_text(parts: Seq<StreamModel>) -> Seq<char>
    decreases parts.len(),
{
    if parts.len() == 0 {
        seq![]
    } else {
        parts_text(parts.drop_last()) + chunk_texts(parts.last().chunks)
    }
}

proof fn lemma_register_sources_chunks(st: ConcatState, es: Seq<SourceView>)
    ensures
        register_sources(st, es).0.chunks == st.chunks,
        register_sources(st, es).0.need_close == st.need_close,
        register_sources(st, es).0.line_offset == st.line_offset,
        register_sources(st, es).0.column_offset == st.column_offset,
    decreases es.len(),
{
    if es.len() > 0 {
        lemma_register_sources_chunks(st, es.drop_last());
    }
}

proof fn lemma_register_names_chunks(st: ConcatState, es: Seq<NameView>)
    ensures
        register_names(st, es).0.chunks == st.chunks,
        register_names(st, es).0.need_close == st.need_close,
        register_names(st, es).0.line_offset == st.line_offset,
        register_names(st, es).0.column_offset == st.column_offset,
    decreases es.len(),
{
    if es.len() > 0 {
        lemma_register_names_chunks(st, es.drop_last());
    }
}

/// A chunk without text adds none.
proof fn lemma_texts_push_none(cs: Seq<ChunkView>, m: Mapping)
    ensures
        chunk_texts(cs.push((None, m))) == chunk_texts(cs),
{
    let none: ChunkView = (None, m);
    lemma_chunk_texts_append(cs, seq![none]);
    assert(seq![none].drop_first() =~= Seq::<ChunkView>::empty());
    assert(chunk_texts(Seq::<ChunkView>::empty()) == Seq::<char>::empty());
    assert(chunk_texts(seq![none]) =~= Seq::<char>::empty());
    assert(cs.push((None, m)) =~= cs + seq![(None, m)]);
    assert(chunk_texts(cs) + Seq::<char>::empty() =~= chunk_texts(cs));
}

/// Unless only mappings are asked for, moving a part's chunks keeps their
/// texts.
proof fn lemma_concat_chunks_text(
    st: ConcatState,
    options: MapOptions,
    src: Map<u32, u32>,
    nam: Map<u32, u32>,
    cs: Seq<ChunkView>,
)
    requires
        !options.final_source,
    ensures
        chunk_texts(concat_chunks(st, options, src, nam, cs).0.chunks) == chunk_texts(st.chunks)
            + chunk_texts(cs),
    decreases cs.len(),
{
    if cs.len() == 0 {
        assert(chunk_texts(cs) == Seq::<char>::empty());
        assert(chunk_texts(st.chunks) + Seq::<char>::empty() =~= chunk_texts(st.chunks));
    } else {
        lemma_concat_chunks_text(st, options, src, nam, cs.drop_last());
        let (st1, _) = concat_chunks(st, options, src, nam, cs.drop_last());
        let c = cs.last();
        let m = c.1;
        let stc = close_before(st1, m);
        if st1.need_close && (m.generated_line != 1 || m.generated_column != 0) {
            lemma_texts_push_none(
                st1.chunks,
                Mapping {
                    generated_line: (st1.line_offset + 1) as u32,
                    generated_column: st1.column_offset as u32,
                    original: None,
                },
            );
        }
        assert(chunk_texts(stc.chunks) == chunk_texts(st1.chunks));
        let (st2, _) = concat_chunk(st1, options, src, nam, c);
        let out = st2.chunks.subrange(stc.chunks.len() as int, st2.chunks.len() as int);
        assert(st2.chunks == stc.chunks + out);
        assert(out.len() == 1 && out[0].0 == c.0);
        lemma_chunk_texts_append(stc.chunks, out);
        lemma_chunk_texts_append(cs.drop_last(), seq![c]);
        assert(cs.drop_last() + seq![c] =~= cs);
        assert(out =~= seq![out[0]]);
        assert(chunk_texts(out) == chunk_texts(seq![c])) by {
            assert(out.drop_first() =~= Seq::<ChunkView>::empty());
            assert(seq![c].drop_first() =~= Seq::<ChunkView>::empty());
        }
    }
}

/// Unless only mappings are asked for, concatenating streams puts their
/// texts one after another.
proof fn lemma_concat_parts_text(options: MapOptions, parts: Seq<StreamModel>)
    requires
        !options.final_source,
    ensures
        chunk_texts(concat_parts(options, parts).chunks) == parts_text(parts),
    decreases parts.len(),
{
    if parts.len() > 0 {
        lemma_concat_parts_text(options, parts.drop_last());
        let st = concat_parts(options, parts.drop_last());
        let part = parts.last();
        let (st1, src) = register_sources(st, part.sources);
        let (st2, nam) = register_names(st1, part.names);
        lemma_register_sources_chunks(st, part.sources);
        lemma_register_names_chunks(st1, part.names);
        lemma_concat_chunks_text(st2, options, src, nam, part.chunks);
        let (st3, _) = concat_chunks(st2, options, src, nam, part.chunks);
        if st3.need_close && (part.info.generated_line != 1 || part.info.generated_column != 0) {
            lemma_texts_push_none(
                st3.chunks,
                Mapping {
                    generated_line: (st3.line_offset + 1) as u32,
                    generated_column: st3.column_offset as u32,
                    original: None,
                },
            );
        }
    } else {
        assert(concat_parts(options, parts).chunks =~= Seq::<ChunkView>::empty());
    }
}

/// Unless only mappings are asked for, streaming a source gives its text:
/// the chunks' texts, one after another, are what `source` returns, for
/// plain text, text with a source map that keeps it (see `keeps_text`), and
/// concatenations of such sources.
pub proof fn lemma_stream_source_text(s: ChunkSource, options: MapOptions)
    requires
        source_ok(s, options),
        texts_kept(s, options),
    ensures
        chunk_texts(source_model(s, options).chunks) == source_text(s),
    decreases s,
{
    match s {
        ChunkSource::Raw(t) => {
            lemma_raw_text(t@);
        },
        ChunkSource::Mapped(t, m) => {
            lemma_source_map_text(t@, m, options);
        },
        ChunkSource::Concat(c) => {
            assert(decreases_to!(s => c));
            assert(decreases_to!(c => c.children));
            assert(decreases_to!(c.children => c.children@));
            lemma_children_stream_text(c.children@, options);
            let models = children_models(c.children@, options);
            lemma_children_len(c.children@, options);
            if models.len() == 1 {
                assert(models.drop_last() =~= Seq::<StreamModel>::empty());
                assert(parts_text(models.drop_last()) == Seq::<char>::empty());
                assert(models.last() == models[0]);
                assert(Seq::<char>::empty() + chunk_texts(models[0].chunks) =~= chunk_texts(
                    models[0].chunks,
                ));
            } else {
                lemma_concat_parts_text(options, models);
            }
        },
    }
}

proof fn lemma_children_stream_text(cs: Seq<ChunkSource>, options: MapOptions)
    requires
        children_ok(cs, options),
        children_texts_kept(cs, options),
    ensures
        parts_text(children_models(cs, options)) == children_text(cs),
    decreases cs,
{
    if cs.len() > 0 {
        assert(decreases_to!(cs => cs.last()));
        lemma_children_stream_text(cs.drop_last(), options);
        lemma_stream_source_text(cs.last(), options);
        assert(children_models(cs, options).drop_last() == children_models(cs.drop_last(), options));
    }
}

proof fn lemma_concat_chunks_offsets(
    st: ConcatState,
    options: MapOptions,
    src: Map<u32, u32>,
    nam: Map<u32, u32>,
    cs: Seq<ChunkView>,
)
    ensures
        concat_chunks(st, options, src, nam, cs).0.line_offset == st.line_offset,
        concat_chunks(st, options, src, nam, cs).0.column_offset == st.column_offset,
    decreases cs.len(),
{
    if cs.len() > 0 {
        lemma_concat_chunks_offsets(st, options, src, nam, cs.drop_last());
    }
}

/// Where a part ends moves where the next part starts as where the text of
/// the two ends follows from where each ends.
proof fn lemma_concat_part_end(st: ConcatState, options: MapOptions, part: StreamModel, a: Seq<u8>, b: Seq<u8>)
    requires
        st.line_offset == count_newlines(a),
        st.column_offset == a.len() - last_line_start(a),
        part.info == generated_info_of(b),
        (a + b).len() < u32::MAX,
    ensures
        concat_part(st, options, part).line_offset == count_newlines(a + b),
        concat_part(st, options, part).column_offset == (a + b).len() - last_line_start(a + b),
{
    let (st1, src) = register_sources(st, part.sources);
    let (st2, nam) = register_names(st1, part.names);
    lemma_register_sources_chunks(st, part.sources);
    lemma_register_names_chunks(st1, part.names);
    lemma_concat_chunks_offsets(st2, options, src, nam, part.chunks);
    lemma_count_newlines_concat(a, b);
    lemma_last_line_start_concat(a, b);
    lemma_no_newline_start(a);
    lemma_no_newline_start(b);
    lemma_no_newline_start(a + b);
    lemma_last_line_start(a);
    lemma_last_line_start(b);
    let (st3, last) = concat_chunks(st2, options, src, nam, part.chunks);
    assert(st3.line_offset == st.line_offset && st3.column_offset == st.column_offset);
    let gl = part.info.generated_line;
    let gc = part.info.generated_column;
    assert(gl == 1 + count_newlines(b));
    assert(gc == b.len() - last_line_start(b));
    let st4 = if st3.need_close && (gl != 1 || gc != 0) {
        ConcatState {
            chunks: st3.chunks.push(
                (
                    None,
                    Mapping {
                        generated_line: (st3.line_offset + 1) as u32,
                        generated_column: st3.column_offset as u32,
                        original: None,
                    },
                ),
            ),
            need_close: false,
            ok: st3.ok && st3.line_offset + 1 <= u32::MAX,
            ..st3
        }
    } else {
        st3
    };
    assert(st4.line_offset == st.line_offset && st4.column_offset == st.column_offset);
}

/// Where a streamed source ends is where its text ends, when the text's
/// columns fit in 32 bits.
pub proof fn lemma_stream_source_end(s: ChunkSource, options: MapOptions)
    requires
        source_ok(s, options),
        bytes_of(source_text(s)).len() < u32::MAX,
    ensures
        source_model(s, options).info == generated_info_of(bytes_of(source_text(s))),
    decreases s,
{
    match s {
        ChunkSource::Raw(t) => {
            crate::stream::lemma_end_of_lines(bytes_of(t@));
        },
        ChunkSource::Mapped(t, m) => {
            crate::stream::lemma_end_of_lines(bytes_of(t@));
        },
        ChunkSource::Concat(c) => {
            assert(decreases_to!(s => c));
            assert(decreases_to!(c => c.children));
            assert(decreases_to!(c.children => c.children@));
            let cs = c.children@;
            let models = children_models(cs, options);
            lemma_children_len(cs, options);
            if models.len() == 1 {
                assert(cs.drop_last() =~= Seq::<ChunkSource>::empty());
                assert(children_text(cs.drop_last()) == Seq::<char>::empty());
                assert(children_text(cs) =~= source_text(cs[0]));
                assert(models == children_models(cs.drop_last(), options).push(source_model(cs.last(), options)));
                assert(children_ok(cs.drop_last(), options) && source_ok(cs.last(), options));
                assert(decreases_to!(cs => cs.last()));
                lemma_stream_source_end(cs.last(), options);
            } else {
                lemma_children_end(cs, options);
                lemma_no_newline_start(bytes_of(children_text(cs)));
                lemma_last_line_start(bytes_of(children_text(cs)));
            }
        },
    }
}

proof fn lemma_children_end(cs: Seq<ChunkSource>, options: MapOptions)
    requires
        children_ok(cs, options),
        concat_parts(options, children_models(cs, options)).ok,
        bytes_of(children_text(cs)).len() < u32::MAX,
    ensures
        concat_parts(options, children_models(cs, options)).line_offset == count_newlines(
            bytes_of(children_text(cs)),
        ),
        concat_parts(options, children_models(cs, options)).column_offset == bytes_of(children_text(cs)).len()
            - last_line_start(bytes_of(children_text(cs))),
    decreases cs,
{
    if cs.len() == 0 {
        assert(children_models(cs, options) =~= Seq::<StreamModel>::empty());
        assert(bytes_of(children_text(cs)) =~= Seq::<u8>::empty());
    } else {
        let pre = cs.drop_last();
        let last = cs.last();
        let models = children_models(cs, options);
        lemma_children_len(cs, options);
        assert(models.drop_last() == children_models(pre, options));
        lemma_concat_parts_ok_prefix(options, models, models.len() - 1);
        assert(models.take(models.len() - 1) =~= models.drop_last());
        let a = bytes_of(children_text(pre));
        let b = bytes_of(source_text(last));
        crate::stream::lemma_encode_utf8_concat(children_text(pre), source_text(last));
        assert(bytes_of(children_text(cs)) == a + b);
        assert(decreases_to!(cs => last));
        lemma_children_end(pre, options);
        lemma_stream_source_end(last, options);
        lemma_concat_part_end(concat_parts(options, models.drop_last()), options, models.last(), a, b);
    }
}

/// A concatenation of one source streams as that source does.
pub proof fn lemma_single_child(c: ConcatSource, options: MapOptions)
    requires
        c.children@.len() == 1,
    ensures
        source_model(ChunkSource::Concat(c), options) == source_model(c.children@[0], options),
        source_ok(ChunkSource::Concat(c), options) == source_ok(c.children@[0], options),
        source_text(ChunkSource::Concat(c)) == source_text(c.children@[0]),
{
    let cs = c.children@;
    lemma_children_len(cs, options);
    assert(cs.drop_last() =~= Seq::<ChunkSource>::empty());
    assert(children_models(cs.drop_last(), options) =~= Seq::<StreamModel>::empty());
    assert(children_text(cs.drop_last()) == Seq::<char>::empty());
    assert(children_text(cs) =~= source_text(cs[0]));
    assert(cs.last() == cs[0]);
    assert(children_models(cs, options) =~= seq![source_model(cs[0], options)]);
    assert(children_ok(cs.drop_last(), options));
    assert(children_ok(cs, options) == source_ok(cs[0], options));
}

/// Where a chunk of a part lands in the concatenation, given where the parts
/// before it end (line `lo + 1`, column `co`).
pub open spec fn moved_chunk(c: ChunkView, lo: int, co: int) -> (Option<Seq<char>>, int, int) {
    (
        c.0,
        c.1.generated_line + lo,
        if c.1.generated_line == 1 {
            c.1.generated_column + co
        } else {
            c.1.generated_column as int
        },
    )
}

proof fn lemma_concat_chunks_moved(
    st: ConcatState,
    options: MapOptions,
    src: Map<u32, u32>,
    nam: Map<u32, u32>,
    cs: Seq<ChunkView>,
)
    requires
        !options.final_source,
        !st.need_close,
        st.line_offset >= 0,
        st.column_offset >= 0,
        concat_chunks(st, options, src, nam, cs).0.ok,
    ensures
        ({
            let r = concat_chunks(st, options, src, nam, cs).0;
            &&& st.ok
            &&& !r.need_close
            &&& r.line_offset == st.line_offset
            &&& r.column_offset == st.column_offset
            &&& r.chunks.len() == st.chunks.len() + cs.len()
            &&& r.chunks.take(st.chunks.len() as int) == st.chunks
            &&& forall|k: int| 0 <= k < cs.len() ==> {
                let out = #[trigger] r.chunks[st.chunks.len() + k];
                (out.0, out.1.generated_line as int, out.1.generated_column as int) == moved_chunk(
                    cs[k],
                    st.line_offset,
                    st.column_offset,
                )
            }
        }),
    decreases cs.len(),
{
    if cs.len() > 0 {
        let (r1, _) = concat_chunks(st, options, src, nam, cs.drop_last());
        let c = cs.last();
        assert(close_before(r1, c.1) == r1);
        lemma_concat_chunks_moved(st, options, src, nam, cs.drop_last());
        let r = concat_chunks(st, options, src, nam, cs).0;
        let n = st.chunks.len();
        assert forall|k: int| 0 <= k < cs.len() implies {
            let out = #[trigger] r.chunks[n + k];
            (out.0, out.1.generated_line as int, out.1.generated_column as int) == moved_chunk(
                cs[k],
                st.line_offset,
                st.column_offset,
            )
        } by {
            if k < cs.len() - 1 {
                assert(r.chunks[n + k] == r1.chunks[n + k]);
                assert(cs.drop_last()[k] == cs[k]);
            } else {
                assert(cs[k] == c);
            }
        }
        assert(r.chunks.take(n as int) =~= r1.chunks.take(n as int));
    } else {
        assert(st.chunks.take(st.chunks.len() as int) =~= st.chunks);
    }
}

proof fn lemma_concat_parts_basics(options: MapOptions, parts: Seq<StreamModel>)
    requires
        !options.final_source,
        concat_parts(options, parts).ok,
    ensures
        !concat_parts(options, parts).need_close,
        concat_parts(options, parts).line_offset >= 0,
        concat_parts(options, parts).column_offset >= 0,
    decreases parts.len(),
{
    if parts.len() > 0 {
        lemma_concat_parts_ok_prefix(options, parts, parts.len() - 1);
        assert(parts.take(parts.len() - 1) =~= parts.drop_last());
        lemma_concat_parts_basics(options, parts.drop_last());
        let st = concat_parts(options, parts.drop_last());
        let part = parts.last();
        let (st1, src) = register_sources(st, part.sources);
        let (st2, nam) = register_names(st1, part.names);
        lemma_register_sources_chunks(st, part.sources);
        lemma_register_names_chunks(st1, part.names);
        lemma_concat_chunks_offsets(st2, options, src, nam, part.chunks);
        lemma_concat_chunks_close(st2, options, src, nam, part.chunks);
    }
}

proof fn lemma_concat_chunks_close(
    st: ConcatState,
    options: MapOptions,
    src: Map<u32, u32>,
    nam: Map<u32, u32>,
    cs: Seq<ChunkView>,
)
    requires
        !st.need_close,
    ensures
        concat_chunks(st, options, src, nam, cs).0.need_close == st.need_close,
        concat_chunks(st, options, src, nam, cs).0.ok ==> st.ok,
    decreases cs.len(),
{
    if cs.len() > 0 {
        lemma_concat_chunks_close(st, options, src, nam, cs.drop_last());
    }
}

/// Unless only mappings are asked for, concatenating one more part keeps the
/// chunks so far and adds the part's chunks, each with its text, moved to
/// where the parts before it end: down by the lines before, and, on the
/// part's first line, right by the column where they end (line 1, column 0
/// when there are none).
pub proof fn lemma_concat_positions(options: MapOptions, parts: Seq<StreamModel>, q: StreamModel)
    requires
        !options.final_source,
        concat_parts(options, parts.push(q)).ok,
    ensures
        ({
            let a = concat_parts(options, parts).chunks;
            let b = concat_parts(options, parts.push(q)).chunks;
            let e = if parts.len() == 0 {
                GeneratedInfo { generated_line: 1, generated_column: 0 }
            } else {
                concat_model(options, parts).info
            };
            &&& b.len() == a.len() + q.chunks.len()
            &&& b.take(a.len() as int) == a
            &&& forall|k: int| 0 <= k < q.chunks.len() ==> {
                let out = #[trigger] b[a.len() + k];
                (out.0, out.1.generated_line as int, out.1.generated_column as int) == moved_chunk(
                    q.chunks[k],
                    e.generated_line - 1,
                    e.generated_column as int,
                )
            }
        }),
{
    let all = parts.push(q);
    assert(all.drop_last() =~= parts);
    lemma_concat_parts_ok_prefix(options, all, parts.len() as int);
    assert(all.take(parts.len() as int) =~= parts);
    lemma_concat_parts_basics(options, parts);
    let st = concat_parts(options, parts);
    let (st1, src) = register_sources(st, q.sources);
    let (st2, nam) = register_names(st1, q.names);
    lemma_register_sources_chunks(st, q.sources);
    lemma_register_names_chunks(st1, q.names);
    lemma_concat_chunks_close(st2, options, src, nam, q.chunks);
    lemma_concat_chunks_moved(st2, options, src, nam, q.chunks);
    let (st3, lst) = concat_chunks(st2, options, src, nam, q.chunks);
    assert(concat_parts(options, all) == concat_part(st, options, q));
    assert(concat_part(st, options, q).chunks == st3.chunks);
    assert(st.ok);
    if parts.len() > 0 {
        assert(st == concat_part(concat_parts(options, parts.drop_last()), options, parts.last()));
        assert(st.line_offset + 1 <= u32::MAX && st.column_offset <= u32::MAX);
    }
    if parts.len() == 1 {
        let p = parts[0];
        assert(parts.drop_last() =~= Seq::<StreamModel>::empty());
        let s0 = concat_initial();
        let (t1, sr) = register_sources(s0, p.sources);
        let (t2, nm) = register_names(t1, p.names);
        lemma_register_sources_chunks(s0, p.sources);
        lemma_register_names_chunks(t1, p.names);
        lemma_concat_chunks_offsets(t2, options, sr, nm, p.chunks);
        lemma_concat_chunks_close(t2, options, sr, nm, p.chunks);
        assert(parts.last() == p);
    }
}

/// Unless only mappings are asked for, in a concatenation of two or more
/// sources the chunks of the last one come last, each moved to where the
/// text of the sources before it ends: down by that text's newlines, and, on
/// the last source's first line, right by the column after its last newline.
pub proof fn lemma_concat_last_child_positions(c: ConcatSource, options: MapOptions)
    requires
        !options.final_source,
        c.children@.len() >= 2,
        source_ok(ChunkSource::Concat(c), options),
        bytes_of(source_text(ChunkSource::Concat(c))).len() < u32::MAX,
    ensures
        ({
            let cs = c.children@;
            let e = generated_info_of(bytes_of(children_text(cs.drop_last())));
            let whole = source_model(ChunkSource::Concat(c), options).chunks;
            let last = source_model(cs.last(), options).chunks;
            &&& whole.len() >= last.len()
            &&& forall|k: int| 0 <= k < last.len() ==> {
                let out = #[trigger] whole[whole.len() - last.len() + k];
                (out.0, out.1.generated_line as int, out.1.generated_column as int) == moved_chunk(
                    last[k],
                    e.generated_line - 1,
                    e.generated_column as int,
                )
            }
        }),
{
    let cs = c.children@;
    let pre = cs.drop_last();
    let models = children_models(cs, options);
    let pm = children_models(pre, options);
    lemma_children_len(cs, options);
    lemma_children_len(pre, options);
    assert(models == pm.push(source_model(cs.last(), options)));
    lemma_concat_positions(options, pm, source_model(cs.last(), options));
    lemma_concat_parts_ok_prefix(options, models, pm.len() as int);
    assert(models.take(pm.len() as int) =~= pm);
    let a = bytes_of(children_text(pre));
    let b = bytes_of(source_text(cs.last()));
    crate::stream::lemma_encode_utf8_concat(children_text(pre), source_text(cs.last()));
    assert(bytes_of(children_text(cs)) == a + b);
    assert(children_ok(pre, options));
    if pre.len() == 1 {
        assert(pre.drop_last() =~= Seq::<ChunkSource>::empty());
        assert(children_text(pre.drop_last()) == Seq::<char>::empty());
        assert(children_text(pre) =~= source_text(pre[0]));
        assert(pm =~= seq![source_model(pre[0], options)]);
        assert(children_ok(pre.drop_last(), options));
        assert(source_ok(pre[0], options));
        lemma_stream_source_end(pre[0], options);
    } else {
        lemma_children_end(pre, options);
        lemma_no_newline_start(a);
        lemma_last_line_start(a);
        lemma_concat_parts_basics(options, pm);
    }
}

impl StreamChunks for ChunkSource {
    open spec fn stream_model(&self, options: MapOptions) -> StreamModel {
        source_model(*self, options)
    }

    open spec fn can_stream(&self, options: MapOptions) -> bool {
        source_ok(*self, options)
    }

    fn stream_chunks(&self, options: &MapOptions) -> (res: ChunkStream) {
        ChunkSource::stream_chunks(self, options)
    }
}

impl StreamChunks for ConcatSource {
    open spec fn stream_model(&self, options: MapOptions) -> StreamModel {
        source_model(ChunkSource::Concat(*self), options)
    }

    open spec fn can_stream(&self, options: MapOptions) -> bool {
        source_ok(ChunkSource::Concat(*self), options)
    }

    fn stream_chunks(&self, options: &MapOptions) -> (res: ChunkStream) {
        ConcatSource::stream_chunks(self, options)
    }
}

} // verus!
