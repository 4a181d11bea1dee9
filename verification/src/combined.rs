//! Streaming a source whose map points into an inner source that has a map
//! of its own: a chunk that points into the inner source is sent on to where
//! the inner map points, so that the result maps the outer text straight to
//! the inner source's originals.
use vstd::prelude::*;
use vstd::string::StringSliceAdditionalSpecFns;
use vstd::utf8::encode_utf8;

use crate::fx_maps::{
    fx_index_map, fx_name_ids, fx_name_values, fx_source_values, FxIndexMap, FxNameIds,
    FxNameValues, FxSourceValues,
};
use crate::helpers::lines_of;
use crate::mapping::{MapOptions, Mapping, OriginalLocation};
use crate::source_map::SourceMap;
use crate::stream::{
    opt_chars, source_map_chunks, source_map_info, source_map_names, source_map_sources,
    streamable, sub_chars, text_lines, chunk_texts, keeps_text, lemma_source_map_text, Chunk, ChunkStream, ChunkView, NameEntry, NameView,
    SourceEntry, SourceView, StreamModel,
};

verus! {

/// One mapping of the inner map as kept for lookups: its generated column,
/// its original (`-1` where there is none) and the text of its chunk.
pub struct LineEntry {
    pub generated_column: i64,
    pub source_index: i64,
    pub original_line: i64,
    pub original_column: i64,
    pub name_index: i64,
    pub text: Seq<char>,
}

/// What streaming through an inner map keeps as it goes.  Index maps hold
/// `-2` for an index registered but not yet given a global index.
pub struct CombState {
    /// False once a step would have panicked.
    pub ok: bool,
    /// Source names to global source indices.
    pub source_ids: Map<Seq<char>, u32>,
    /// Names to global name indices.
    pub name_ids: Map<Seq<char>, u32>,
    /// The outer map's source indices to global ones.
    pub source_index: Map<i64, i64>,
    /// The outer map's name indices to global ones.
    pub name_index: Map<i64, i64>,
    /// The outer map's names.
    pub name_values: Map<i64, Seq<char>>,
    /// The outer index of the inner source (`-2` until it is seen).
    pub inner_index: i64,
    /// The inner source's text, given or read from the outer map.
    pub inner_text: Option<Seq<char>>,
    /// The inner map's source indices to global ones.
    pub inner_source_index: Map<i64, i64>,
    /// The inner map's sources and contents.
    pub inner_sources: Map<i64, (Seq<char>, Option<Seq<char>>)>,
    /// The inner map's name indices to global ones.
    pub inner_name_index: Map<i64, i64>,
    /// The inner map's names.
    pub inner_name_values: Map<i64, Seq<char>>,
    /// The inner map's mappings by generated line (line `k + 1` at `k`).
    pub lines: Seq<Seq<LineEntry>>,
    /// The sources registered so far.
    pub sources: Seq<SourceView>,
    /// The names registered so far.
    pub names: Seq<NameView>,
}

/// What stays fixed while streaming through an inner map.
pub struct CombCtx {
    pub source: Seq<char>,
    pub inner_name: Seq<char>,
    pub inner_map: SourceMap,
    pub remove_inner_source: bool,
    pub columns: bool,
}

/// The state before anything is streamed.
pub open spec fn comb_initial(inner_source: Option<Seq<char>>) -> CombState {
    CombState {
        ok: true,
        source_ids: Map::empty(),
        name_ids: Map::empty(),
        source_index: Map::empty(),
        name_index: Map::empty(),
        name_values: Map::empty(),
        inner_index: -2i64,
        inner_text: inner_source,
        inner_source_index: Map::empty(),
        inner_sources: Map::empty(),
        inner_name_index: Map::empty(),
        inner_name_values: Map::empty(),
        lines: seq![],
        sources: seq![],
        names: seq![],
    }
}

/// The global index of the source found under `key`; when there is none, a
/// new one, the number of keys so far: it is stored under `stored` and the
/// source `key` with `content` is registered under it.
pub open spec fn global_source(st: CombState, key: Seq<char>, stored: Seq<char>, content: Option<Seq<char>>) -> (CombState, u32) {
    if st.source_ids.contains_key(key) {
        (st, st.source_ids[key])
    } else {
        let len = st.source_ids.dom().len() as u32;
        (
            CombState {
                source_ids: st.source_ids.insert(stored, len),
                sources: st.sources.push((len, key, content)),
                ..st
            },
            len,
        )
    }
}

/// The global index of `name`; when it has none, a new one, the number of
/// names so far, under which `name` is registered.
pub open spec fn global_name(st: CombState, name: Seq<char>) -> (CombState, u32) {
    if st.name_ids.contains_key(name) {
        (st, st.name_ids[name])
    } else {
        let len = st.name_ids.dom().len() as u32;
        (CombState { name_ids: st.name_ids.insert(name, len), names: st.names.push((len, name)), ..st }, len)
    }
}

/// The options under which the inner source is streamed.
pub open spec fn inner_options(columns: bool) -> MapOptions {
    MapOptions { columns, final_source: false }
}

/// The stream of the inner source's text with the inner map.
pub open spec fn inner_model(text: Seq<char>, inner_map: SourceMap, columns: bool) -> StreamModel {
    let b = encode_utf8(text);
    StreamModel {
        chunks: source_map_chunks(b, inner_map, inner_options(columns)),
        sources: source_map_sources(b, inner_map, inner_options(columns)),
        names: source_map_names(b, inner_map, inner_options(columns)),
        info: source_map_info(b, inner_options(columns)),
    }
}

/// Whether the inner source's text can be streamed with the inner map.
pub open spec fn inner_streamable(text: Seq<char>, inner_map: SourceMap) -> bool {
    let b = encode_utf8(text);
    streamable(b, inner_map) && lines_of(b).len() + 2 < u32::MAX
}

/// An inner source registered: its index is not yet given a global one.
pub open spec fn inner_source_fold(st: CombState, es: Seq<SourceView>) -> CombState
    decreases es.len(),
{
    if es.len() == 0 {
        st
    } else {
        let st1 = inner_source_fold(st, es.drop_last());
        let e = es.last();
        CombState {
            inner_source_index: st1.inner_source_index.insert(e.0 as i64, -2i64),
            inner_sources: st1.inner_sources.insert(e.0 as i64, (e.1, e.2)),
            ..st1
        }
    }
}

/// An inner name registered: its index is not yet given a global one.
pub open spec fn inner_name_fold(st: CombState, es: Seq<NameView>) -> CombState
    decreases es.len(),
{
    if es.len() == 0 {
        st
    } else {
        let st1 = inner_name_fold(st, es.drop_last());
        let e = es.last();
        CombState {
            inner_name_index: st1.inner_name_index.insert(e.0 as i64, -2i64),
            inner_name_values: st1.inner_name_values.insert(e.0 as i64, e.1),
            ..st1
        }
    }
}

/// An inner chunk as kept for lookups.
pub open spec fn line_entry(c: ChunkView) -> LineEntry {
    LineEntry {
        generated_column: c.1.generated_column as i64,
        source_index: match c.1.original {
            Some(o) => o.source_index as i64,
            None => -1i64,
        },
        original_line: match c.1.original {
            Some(o) => o.original_line as i64,
            None => -1i64,
        },
        original_column: match c.1.original {
            Some(o) => o.original_column as i64,
            None => -1i64,
        },
        name_index: match c.1.original {
            Some(o) => match o.name_index {
                Some(n) => n as i64,
                None => -1i64,
            },
            None => -1i64,
        },
        text: c.0.unwrap(),
    }
}

/// `lines` with empty lines added until it has more than `gl`.
pub open spec fn pad_lines(lines: Seq<Seq<LineEntry>>, gl: int) -> Seq<Seq<LineEntry>> {
    if lines.len() <= gl {
        lines + Seq::new((gl + 1 - lines.len()) as nat, |i: int| Seq::<LineEntry>::empty())
    } else {
        lines
    }
}

/// `lines` with the inner chunk `c` kept at the end of its generated line.
pub open spec fn add_line_entry(lines: Seq<Seq<LineEntry>>, c: ChunkView) -> Seq<Seq<LineEntry>> {
    let gl = c.1.generated_line as int;
    let padded = pad_lines(lines, gl);
    padded.update(gl - 1, padded[gl - 1].push(line_entry(c)))
}

/// An inner chunk kept at its generated line; a chunk without text or on
/// line 0 is where streaming would panic.
pub open spec fn inner_line_step(st: CombState, c: ChunkView) -> CombState {
    if c.0 is None || c.1.generated_line == 0 {
        CombState { ok: false, ..st }
    } else {
        CombState { lines: add_line_entry(st.lines, c), ..st }
    }
}

/// The inner chunks kept, one after another.
pub open spec fn inner_line_fold(st: CombState, cs: Seq<ChunkView>) -> CombState
    decreases cs.len(),
{
    if cs.len() == 0 {
        st
    } else {
        inner_line_step(inner_line_fold(st, cs.drop_last()), cs.last())
    }
}

/// A source of the outer map registered.  The inner source takes the given
/// text, or else the content the map has for it, and its text is streamed
/// with the inner map; another source is given its global index at once.
pub open spec fn outer_source_step(ctx: CombCtx, st: CombState, e: SourceView) -> CombState {
    if !st.ok {
        st
    } else if e.1 == ctx.inner_name {
        let content = if st.inner_text is Some {
            st.inner_text
        } else {
            e.2
        };
        match content {
            None => CombState { ok: false, ..st },
            Some(text) => {
                if !inner_streamable(text, ctx.inner_map) {
                    CombState { ok: false, ..st }
                } else {
                    let st1 = CombState {
                        inner_index: e.0 as i64,
                        inner_text: content,
                        source_index: st.source_index.insert(e.0 as i64, -2i64),
                        ..st
                    };
                    let m = inner_model(text, ctx.inner_map, ctx.columns);
                    inner_line_fold(inner_name_fold(inner_source_fold(st1, m.sources), m.names), m.chunks)
                }
            },
        }
    } else {
        let (st1, g) = global_source(st, e.1, e.1, e.2);
        CombState { source_index: st1.source_index.insert(e.0 as i64, g as i64), ..st1 }
    }
}

/// The sources of the outer map registered, one after another.
pub open spec fn outer_source_fold(ctx: CombCtx, st: CombState, es: Seq<SourceView>) -> CombState
    decreases es.len(),
{
    if es.len() == 0 {
        st
    } else {
        outer_source_step(ctx, outer_source_fold(ctx, st, es.drop_last()), es.last())
    }
}

/// The names of the outer map registered, not yet given global indices.
pub open spec fn outer_name_fold(st: CombState, es: Seq<NameView>) -> CombState
    decreases es.len(),
{
    if es.len() == 0 {
        st
    } else {
        let st1 = outer_name_fold(st, es.drop_last());
        let e = es.last();
        CombState {
            name_index: st1.name_index.insert(e.0 as i64, -2i64),
            name_values: st1.name_values.insert(e.0 as i64, e.1),
            ..st1
        }
    }
}

/// The binary search over the generated columns of `data` between `l` and
/// `r`: on columns in order, the number of entries at or before `column`.
pub open spec fn column_search(data: Seq<LineEntry>, column: i64, l: int, r: int) -> int
    decreases r - l,
{
    if 0 <= l < r <= data.len() {
        let m = (l + r) / 2;
        if data[m].generated_column <= column {
            column_search(data, column, m + 1, r)
        } else {
            column_search(data, column, l, m)
        }
    } else {
        l
    }
}

/// The inner mapping that covers `column` on generated line `line`: the last
/// one starting at or before it, as the binary search finds it.
pub open spec fn find_inner(lines: Seq<Seq<LineEntry>>, line: i64, column: i64) -> Option<int> {
    if line > lines.len() || line < 1 {
        None
    } else {
        let data = lines[line - 1];
        let l = column_search(data, column, 0, data.len() as int);
        if l == 0 {
            None
        } else {
            Some(l - 1)
        }
    }
}

/// The lines of the content of inner source `i`, if it has one.
pub open spec fn content_lines(st: CombState, i: i64) -> Option<Seq<Seq<char>>> {
    if st.inner_sources.contains_key(i) && st.inner_sources[i].1 is Some {
        Some(text_lines(encode_utf8(st.inner_sources[i].1.unwrap())))
    } else {
        None
    }
}

/// Whether reading `count` characters from column `start` of original line
/// `line` (counted from 1) panics: on line 0, or past the largest `usize`
/// when the line exists.
pub open spec fn read_panics(ls: Seq<Seq<char>>, line: i64, start: i64, count: int) -> bool {
    line < 1 || (line - 1 < ls.len() && (start as usize) + count > usize::MAX)
}

/// The `count` characters from column `start` of original line `line`, or
/// nothing when there is no such line.
pub open spec fn read_original(ls: Seq<Seq<char>>, line: i64, start: i64, count: int) -> Seq<char> {
    if 1 <= line && line - 1 < ls.len() {
        sub_chars(ls[line - 1], (start as usize) as int, (start as usize) + count)
    } else {
        seq![]
    }
}

/// The number of bytes of a name.
pub open spec fn byte_len(s: Seq<char>) -> int {
    encode_utf8(s).len() as int
}

/// A chunk with the given mapping position and original.
pub open spec fn emit(c: ChunkView, original: Option<OriginalLocation>) -> ChunkView {
    (c.0, Mapping { generated_line: c.1.generated_line, generated_column: c.1.generated_column, original })
}

/// The original built from global indices, `-1` meaning none.
pub open spec fn located(source: i64, line: i64, column: i64, name: i64) -> Option<OriginalLocation> {
    if source >= 0 {
        Some(
            OriginalLocation {
                source_index: source as u32,
                original_line: line as u32,
                original_column: column as u32,
                name_index: if name >= 0 {
                    Some(name as u32)
                } else {
                    None
                },
            },
        )
    } else {
        None
    }
}

/// Where an inner mapping points once it is checked for an identity mapping:
/// when the chunk starts `loc > 0` characters into the inner mapping's chunk
/// and those characters are the ones at the inner original, the column moves
/// by `loc` and the inner name is dropped.
pub open spec fn adjust_identity(st: CombState, e: LineEntry, column: i64) -> (bool, i64, i64) {
    let loc = column - e.generated_column;
    if loc > 0 {
        match content_lines(st, e.source_index) {
            Some(ls) => {
                if read_panics(ls, e.original_line, e.original_column, loc as int) {
                    (false, e.original_column, e.name_index)
                } else if sub_chars(e.text, 0, loc as int) == read_original(
                    ls,
                    e.original_line,
                    e.original_column,
                    loc as int,
                ) {
                    (true, (e.original_column + loc) as i64, -1i64)
                } else {
                    (true, e.original_column, e.name_index)
                }
            },
            None => (true, e.original_column, e.name_index),
        }
    } else {
        (true, e.original_column, e.name_index)
    }
}

/// The global index of inner name `ini`, given one the first time it is
/// asked for (`-1` when the inner map has no such name).
pub open spec fn inner_name_global(st: CombState, ini: i64) -> (CombState, i64) {
    let known = if st.inner_name_index.contains_key(ini) {
        st.inner_name_index[ini]
    } else {
        -2i64
    };
    if known != -2i64 {
        (st, known)
    } else if st.inner_name_values.contains_key(ini) {
        let (st1, g) = global_name(st, st.inner_name_values[ini]);
        (CombState { inner_name_index: st1.inner_name_index.insert(ini, g as i64), ..st1 }, g as i64)
    } else {
        (CombState { inner_name_index: st.inner_name_index.insert(ini, -1i64), ..st }, -1i64)
    }
}

/// The global index of outer name `ni`, given one the first time it is asked
/// for (`-1` when the outer map has no such name).
pub open spec fn outer_name_global(st: CombState, ni: i64) -> (CombState, i64) {
    let known = if st.name_index.contains_key(ni) {
        st.name_index[ni]
    } else {
        -2i64
    };
    if known != -2i64 {
        (st, known)
    } else if st.name_values.contains_key(ni) {
        let (st1, g) = global_name(st, st.name_values[ni]);
        (CombState { name_index: st1.name_index.insert(ni, g as i64), ..st1 }, g as i64)
    } else {
        (CombState { name_index: st.name_index.insert(ni, -1i64), ..st }, -1i64)
    }
}

/// When the inner mapping has no name but the outer one does, the outer name
/// is kept where the inner original text at the mapped column is that name.
pub open spec fn name_from_outer(st: CombState, isi: i64, iol: i64, ioc: i64, ni: i64) -> (CombState, i64) {
    match content_lines(st, isi) {
        Some(ls) => {
            if !st.name_values.contains_key(ni) {
                (CombState { ok: false, ..st }, -1i64)
            } else {
                let name = st.name_values[ni];
                if read_panics(ls, iol, ioc, byte_len(name)) {
                    (CombState { ok: false, ..st }, -1i64)
                } else if name == read_original(ls, iol, ioc, byte_len(name)) {
                    outer_name_global(st, ni)
                } else {
                    (st, -1i64)
                }
            }
        },
        None => (st, -1i64),
    }
}

/// A chunk that points into the inner source where the inner map has a
/// mapping `e` that points somewhere: the chunk is sent on to that original,
/// with sources and names given global indices as they first occur.
pub open spec fn through_inner(st: CombState, c: ChunkView, e: LineEntry, ni: i64) -> (CombState, ChunkView) {
    let column = c.1.original.unwrap().original_column as i64;
    let (fine, ioc, ini) = adjust_identity(st, e, column);
    if !fine {
        (CombState { ok: false, ..st }, c)
    } else {
        let isi = e.source_index;
        let known = if st.inner_source_index.contains_key(isi) {
            st.inner_source_index[isi]
        } else {
            -2i64
        };
        let (st1, si) = if known == -2i64 {
            let (name, content) = if st.inner_sources.contains_key(isi) {
                st.inner_sources[isi]
            } else {
                (Seq::<char>::empty(), None)
            };
            let (s1, g) = global_source(st, name, name, content);
            (CombState { inner_source_index: s1.inner_source_index.insert(isi, g as i64), ..s1 }, g as i64)
        } else {
            (st, known)
        };
        let (st2, fni) = if ini >= 0 {
            inner_name_global(st1, ini)
        } else if ni >= 0 {
            name_from_outer(st1, isi, e.original_line, ioc, ni)
        } else {
            (st1, -1i64)
        };
        (st2, emit(c, located(si, e.original_line, ioc, fni)))
    }
}

/// A chunk passed through with its own original, its source and name given
/// global indices (no source: a chunk mapped nowhere).
pub open spec fn pass_through(st: CombState, c: ChunkView, si: i64, ol: i64, oc: i64, ni: i64) -> (CombState, ChunkView) {
    let fsi = if st.source_index.contains_key(si) {
        st.source_index[si]
    } else {
        -1i64
    };
    if fsi < 0 {
        (st, emit(c, None))
    } else {
        let known = if st.name_index.contains_key(ni) {
            st.name_index[ni]
        } else {
            -1i64
        };
        if known == -2i64 {
            if !st.name_values.contains_key(ni) {
                (CombState { ok: false, ..st }, c)
            } else {
                let (st1, g) = global_name(st, st.name_values[ni]);
                (
                    CombState { name_index: st1.name_index.insert(ni, g as i64), ..st1 },
                    emit(c, located(fsi, ol, oc, g as i64)),
                )
            }
        } else {
            (st, emit(c, located(fsi, ol, oc, known)))
        }
    }
}

/// One chunk of the outer stream.
pub open spec fn comb_chunk_step(ctx: CombCtx, st: CombState, c: ChunkView) -> (CombState, ChunkView) {
    let o = c.1.original;
    let si: i64 = match o {
        Some(x) => x.source_index as i64,
        None => -1i64,
    };
    let ol: i64 = match o {
        Some(x) => x.original_line as i64,
        None => -1i64,
    };
    let oc: i64 = match o {
        Some(x) => x.original_column as i64,
        None => -1i64,
    };
    let ni: i64 = match o {
        Some(x) => match x.name_index {
            Some(n) => n as i64,
            None => -1i64,
        },
        None => -1i64,
    };
    if !st.ok {
        (st, c)
    } else if si == st.inner_index {
        if ol == 0 {
            (CombState { ok: false, ..st }, c)
        } else {
            let found = find_inner(st.lines, ol, oc);
            if found is Some && st.lines[ol - 1][found.unwrap()].source_index >= 0 {
                through_inner(st, c, st.lines[ol - 1][found.unwrap()], ni)
            } else if ctx.remove_inner_source {
                (st, emit(c, None))
            } else {
                let st1 = if st.source_index.contains_key(si) && st.source_index[si] == -2i64 {
                    let (s1, g) = global_source(st, ctx.inner_name, ctx.source, st.inner_text);
                    CombState { source_index: s1.source_index.insert(si, g as i64), ..s1 }
                } else {
                    st
                };
                pass_through(st1, c, si, ol, oc, ni)
            }
        }
    } else {
        pass_through(st, c, si, ol, oc, ni)
    }
}

/// The chunks of the outer stream, one after another: the state after them
/// and the chunks sent on.
pub open spec fn comb_chunk_fold(ctx: CombCtx, st: CombState, cs: Seq<ChunkView>) -> (CombState, Seq<ChunkView>)
    decreases cs.len(),
{
    if cs.len() == 0 {
        (st, seq![])
    } else {
        let (st1, out) = comb_chunk_fold(ctx, st, cs.drop_last());
        let (st2, c) = comb_chunk_step(ctx, st1, cs.last());
        (st2, out.push(c))
    }
}

/// The outer stream of `source` with its map.
pub open spec fn outer_model(source: Seq<char>, source_map: SourceMap, options: MapOptions) -> StreamModel {
    let b = encode_utf8(source);
    StreamModel {
        chunks: source_map_chunks(b, source_map, options),
        sources: source_map_sources(b, source_map, options),
        names: source_map_names(b, source_map, options),
        info: source_map_info(b, options),
    }
}

/// The whole run: the outer sources, then the outer names, then the chunks.
pub open spec fn comb_run(ctx: CombCtx, outer: StreamModel, inner_source: Option<Seq<char>>) -> (CombState, Seq<ChunkView>) {
    let st1 = outer_source_fold(ctx, comb_initial(inner_source), outer.sources);
    let st2 = outer_name_fold(st1, outer.names);
    comb_chunk_fold(ctx, st2, outer.chunks)
}

/// The context of a run.
pub open spec fn comb_ctx(
    source: Seq<char>,
    inner_source_name: Seq<char>,
    inner_source_map: SourceMap,
    remove_inner_source: bool,
    options: MapOptions,
) -> CombCtx {
    CombCtx {
        source,
        inner_name: inner_source_name,
        inner_map: inner_source_map,
        remove_inner_source,
        columns: options.columns,
    }
}

/// What streaming through an inner map gives.
pub open spec fn combined_model(
    source: Seq<char>,
    source_map: SourceMap,
    inner_source_name: Seq<char>,
    inner_source: Option<Seq<char>>,
    inner_source_map: SourceMap,
    remove_inner_source: bool,
    options: MapOptions,
) -> StreamModel {
    let outer = outer_model(source, source_map, options);
    let ctx = comb_ctx(source, inner_source_name, inner_source_map, remove_inner_source, options);
    let (st, chunks) = comb_run(ctx, outer, inner_source);
    StreamModel { chunks, sources: st.sources, names: st.names, info: outer.info }
}

/// Whether streaming through an inner map runs without panicking.
pub open spec fn combined_ok(
    source: Seq<char>,
    source_map: SourceMap,
    inner_source_name: Seq<char>,
    inner_source: Option<Seq<char>>,
    inner_source_map: SourceMap,
    remove_inner_source: bool,
    options: MapOptions,
) -> bool {
    let outer = outer_model(source, source_map, options);
    let ctx = comb_ctx(source, inner_source_name, inner_source_map, remove_inner_source, options);
    comb_run(ctx, outer, inner_source).0.ok
}


/// The text of one chunk of the inner stream, read by characters.
pub struct SourceMapLineChunk {
    content: String,
}

impl SourceMapLineChunk {
    /// The characters of the chunk.
    pub closed spec fn spec_content(&self) -> Seq<char> {
        self.content@
    }

    /// A chunk of text `content`.
    pub fn new(content: String) -> (res: SourceMapLineChunk)
        ensures
            res.spec_content() == content@,
    {
        SourceMapLineChunk { content }
    }

    /// The characters from `start_index` to before `end_index`, both cut to
    /// the chunk's length.
    pub fn substring(&self, start_index: usize, end_index: usize) -> (res: &str)
        ensures
            res@ == sub_chars(self.spec_content(), start_index as int, end_index as int),
    {
        crate::stream::substring(self.content.as_str(), start_index, end_index)
    }
}

/// One mapping of the inner map kept for lookups.
struct LineMapping {
    generated_column: i64,
    source_index: i64,
    original_line: i64,
    original_column: i64,
    name_index: i64,
    chunk: SourceMapLineChunk,
}

/// The mappings of the inner map on one generated line.
struct SourceMapLineData {
    mappings: Vec<LineMapping>,
}

spec fn line_mapping_view(m: LineMapping) -> LineEntry {
    LineEntry {
        generated_column: m.generated_column,
        source_index: m.source_index,
        original_line: m.original_line,
        original_column: m.original_column,
        name_index: m.name_index,
        text: m.chunk.spec_content(),
    }
}

spec fn line_data_view(d: SourceMapLineData) -> Seq<LineEntry> {
    d.mappings@.map_values(|m: LineMapping| line_mapping_view(m))
}

spec fn lines_view(ls: Seq<SourceMapLineData>) -> Seq<Seq<LineEntry>> {
    ls.map_values(|d: SourceMapLineData| line_data_view(d))
}

/// The values an inner mapping can hold: columns and indices of 32 bits, and
/// `-1` where there is no original or no name.
pub open spec fn entry_wf(e: LineEntry) -> bool {
    &&& 0 <= e.generated_column <= u32::MAX
    &&& -1 <= e.source_index <= u32::MAX
    &&& -1 <= e.name_index <= u32::MAX
    &&& -1 <= e.original_line <= u32::MAX
    &&& -1 <= e.original_column <= u32::MAX
    &&& e.source_index >= 0 ==> e.original_line >= 0 && e.original_column >= 0
}

pub open spec fn lines_wf(lines: Seq<Seq<LineEntry>>) -> bool {
    forall|i: int, j: int| 0 <= i < lines.len() && 0 <= j < lines[i].len() ==> entry_wf(#[trigger] lines[i][j])
}

/// The exec state of a run through an inner map.
struct Combiner {
    source_mapping: FxNameIds,
    name_mapping: FxNameIds,
    source_index_mapping: FxIndexMap,
    name_index_mapping: FxIndexMap,
    name_index_value_mapping: FxNameValues,
    inner_source_index: i64,
    inner_source: Option<String>,
    inner_source_index_mapping: FxIndexMap,
    inner_source_index_value_mapping: FxSourceValues,
    inner_name_index_mapping: FxIndexMap,
    inner_name_index_value_mapping: FxNameValues,
    line_data: Vec<SourceMapLineData>,
    sources: Vec<SourceEntry>,
    names: Vec<NameEntry>,
}

impl Combiner {
    spec fn state(&self) -> CombState {
        CombState {
            ok: true,
            source_ids: fx_name_ids(self.source_mapping),
            name_ids: fx_name_ids(self.name_mapping),
            source_index: fx_index_map(self.source_index_mapping),
            name_index: fx_index_map(self.name_index_mapping),
            name_values: fx_name_values(self.name_index_value_mapping),
            inner_index: self.inner_source_index,
            inner_text: opt_chars(self.inner_source),
            inner_source_index: fx_index_map(self.inner_source_index_mapping),
            inner_sources: fx_source_values(self.inner_source_index_value_mapping),
            inner_name_index: fx_index_map(self.inner_name_index_mapping),
            inner_name_values: fx_name_values(self.inner_name_index_value_mapping),
            lines: lines_view(self.line_data@),
            sources: self.sources@.map_values(|e: SourceEntry| crate::stream::source_view(e)),
            names: self.names@.map_values(|e: NameEntry| crate::stream::name_view(e)),
        }
    }

    spec fn wf(&self) -> bool {
        lines_wf(self.state().lines)
    }

    fn new(inner_source: Option<&str>) -> (res: Combiner)
        ensures
            res.state() == comb_initial(match inner_source {
                Some(s) => Some(s@),
                None => None,
            }),
            res.wf(),
    {
        let inner = match inner_source {
            Some(s) => Some(s.to_string()),
            None => None,
        };
        let res = Combiner {
            source_mapping: FxNameIds::new(),
            name_mapping: FxNameIds::new(),
            source_index_mapping: FxIndexMap::new(),
            name_index_mapping: FxIndexMap::new(),
            name_index_value_mapping: FxNameValues::new(),
            inner_source_index: -2,
            inner_source: inner,
            inner_source_index_mapping: FxIndexMap::new(),
            inner_source_index_value_mapping: FxSourceValues::new(),
            inner_name_index_mapping: FxIndexMap::new(),
            inner_name_index_value_mapping: FxNameValues::new(),
            line_data: Vec::new(),
            sources: Vec::new(),
            names: Vec::new(),
        };
        assert(res.state().source_ids =~= Map::empty());
        assert(res.state().name_ids =~= Map::empty());
        assert(res.state().source_index =~= Map::empty());
        assert(res.state().name_index =~= Map::empty());
        assert(res.state().name_values =~= Map::empty());
        assert(res.state().inner_source_index =~= Map::empty());
        assert(res.state().inner_sources =~= Map::empty());
        assert(res.state().inner_name_index =~= Map::empty());
        assert(res.state().inner_name_values =~= Map::empty());
        assert(res.state().lines =~= seq![]);
        assert(res.state().sources =~= seq![]);
        assert(res.state().names =~= seq![]);
        res
    }

    /// The global index of the source under `key`, or a new one stored under
    /// `stored` with the source `key` and `content` registered.
    fn global_source(&mut self, key: &str, stored: &str, content: Option<String>) -> (res: u32)
        ensures
            (final(self).state(), res) == global_source(old(self).state(), key@, stored@, opt_chars(content)),
            final(self).line_data@ == old(self).line_data@,
    {
        match self.source_mapping.get(key) {
            Some(g) => g,
            None => {
                let len = #[verifier::truncate] (self.source_mapping.len() as u32);
                self.source_mapping.insert(stored.to_string(), len);
                let e = SourceEntry { index: len, source: key.to_string(), content };
                let ghost before = self.sources@;
                self.sources.push(e);
                proof {
                    assert(self.sources@.map_values(|e: SourceEntry| crate::stream::source_view(e))
                        =~= before.map_values(|e: SourceEntry| crate::stream::source_view(e)).push(
                        crate::stream::source_view(e),
                    ));
                }
                len
            },
        }
    }

    /// The global index of `name`, or a new one with `name` registered.
    fn global_name(&mut self, name: &str) -> (res: u32)
        ensures
            (final(self).state(), res) == global_name(old(self).state(), name@),
            final(self).line_data@ == old(self).line_data@,
    {
        match self.name_mapping.get(name) {
            Some(g) => g,
            None => {
                let len = #[verifier::truncate] (self.name_mapping.len() as u32);
                self.name_mapping.insert(name.to_string(), len);
                let e = NameEntry { index: len, name: name.to_string() };
                let ghost before = self.names@;
                self.names.push(e);
                proof {
                    assert(self.names@.map_values(|e: NameEntry| crate::stream::name_view(e)) =~= before.map_values(
                        |e: NameEntry| crate::stream::name_view(e),
                    ).push(crate::stream::name_view(e)));
                }
                len
            },
        }
    }
}

/// The binary search stays between its bounds.
proof fn lemma_column_search_bounds(data: Seq<LineEntry>, column: i64, l: int, r: int)
    requires
        0 <= l <= r <= data.len(),
    ensures
        l <= column_search(data, column, l, r) <= r,
    decreases r - l,
{
    if l < r {
        let m = (l + r) / 2;
        if data[m].generated_column <= column {
            lemma_column_search_bounds(data, column, m + 1, r);
        } else {
            lemma_column_search_bounds(data, column, l, m);
        }
    }
}

/// The binary search of [`column_search`].
fn search_columns(data: &Vec<LineMapping>, column: i64) -> (res: usize)
    ensures
        res as int == column_search(data@.map_values(|m: LineMapping| line_mapping_view(m)), column, 0, data@.len() as int),
        res <= data@.len(),
{
    proof {
        lemma_column_search_bounds(data@.map_values(|m: LineMapping| line_mapping_view(m)), column, 0, data@.len() as int);
    }
    let ghost d = data@.map_values(|m: LineMapping| line_mapping_view(m));
    let mut l: usize = 0;
    let mut r: usize = data.len();
    while l < r
        invariant
            0 <= l <= r <= data@.len(),
            d.len() == data@.len(),
            d == data@.map_values(|m: LineMapping| line_mapping_view(m)),
            column_search(d, column, l as int, r as int) == column_search(d, column, 0, data@.len() as int),
        decreases r - l,
    {
        let m = l + (r - l) / 2;
        assert(m == (l + r) / 2);
        assert(d[m as int].generated_column == data@[m as int].generated_column);
        if data[m].generated_column <= column {
            l = m + 1;
        } else {
            r = m;
        }
    }
    l
}


/// A copy of an optional string.
fn clone_opt(o: &Option<String>) -> (res: Option<String>)
    ensures
        opt_chars(res) == opt_chars(*o),
{
    match o {
        Some(t) => Some(t.clone()),
        None => None,
    }
}

/// Keeps the inner chunk `c` at the end of its generated line.
fn add_line(lines: &mut Vec<SourceMapLineData>, c: &Chunk)
    requires
        lines_wf(lines_view(old(lines)@)),
        c.text is Some,
        c.mapping.generated_line >= 1,
    ensures
        lines_wf(lines_view(final(lines)@)),
        lines_view(final(lines)@) == add_line_entry(lines_view(old(lines)@), crate::stream::chunk_view(*c)),
{
    let ghost old_lines = lines_view(lines@);
    let ghost cv = crate::stream::chunk_view(*c);
    let gl = c.mapping.generated_line as usize;
    let ghost start = lines@.len();
    while lines.len() <= gl
        invariant
            start <= lines@.len(),
            start == old_lines.len(),
            lines@.len() <= gl + 1 || lines@.len() == start,
            lines_view(lines@) == old_lines + Seq::new(
                (lines@.len() - start) as nat,
                |i: int| Seq::<LineEntry>::empty(),
            ),
        decreases gl + 1 - lines@.len(),
    {
        let ghost before = lines@;
        lines.push(SourceMapLineData { mappings: Vec::new() });
        proof {
            assert(line_data_view(lines@.last()) =~= Seq::<LineEntry>::empty());
            assert(lines@ == before.push(lines@.last()));
            assert(lines_view(lines@) =~= lines_view(before).push(Seq::<LineEntry>::empty()));
            assert(lines_view(lines@) =~= old_lines + Seq::new(
                (lines@.len() - start) as nat,
                |i: int| Seq::<LineEntry>::empty(),
            ));
        }
    }
    let ghost padded = lines_view(lines@);
    assert(padded =~= pad_lines(old_lines, gl as int));
    let o = c.mapping.original;
    let entry = LineMapping {
        generated_column: c.mapping.generated_column as i64,
        source_index: match o {
            Some(x) => x.source_index as i64,
            None => -1,
        },
        original_line: match o {
            Some(x) => x.original_line as i64,
            None => -1,
        },
        original_column: match o {
            Some(x) => x.original_column as i64,
            None => -1,
        },
        name_index: match o {
            Some(x) => match x.name_index {
                Some(n) => n as i64,
                None => -1,
            },
            None => -1,
        },
        chunk: SourceMapLineChunk::new(
            match &c.text {
                Some(t) => t.clone(),
                None => String::new(),
            },
        ),
    };
    assert(line_mapping_view(entry) == line_entry(cv));
    let ghost before = lines@;
    lines[gl - 1].mappings.push(entry);
    proof {
        assert(line_data_view(lines@[gl - 1]) =~= line_data_view(before[gl - 1]).push(line_entry(cv)));
        assert(lines_view(lines@) =~= padded.update(gl - 1, padded[gl - 1].push(line_entry(cv))));
        assert forall|i: int, j: int|
            0 <= i < lines_view(lines@).len() && 0 <= j < lines_view(lines@)[i].len() implies entry_wf(
                #[trigger] lines_view(lines@)[i][j],
            ) by {
            if i < old_lines.len() && (i != gl - 1 || j < padded[i].len()) {
                assert(lines_view(lines@)[i][j] == old_lines[i][j]);
            }
        }
    }
}


/// A run of inner chunks that does not panic does not panic on a prefix.
proof fn lemma_inner_line_fold_prefix(st: CombState, cs: Seq<ChunkView>, k: int)
    requires
        inner_line_fold(st, cs).ok,
        0 <= k <= cs.len(),
    ensures
        inner_line_fold(st, cs.take(k)).ok,
    decreases cs.len(),
{
    if k == cs.len() {
        assert(cs.take(k) =~= cs);
    } else {
        assert(inner_line_fold(st, cs.drop_last()).ok);
        lemma_inner_line_fold_prefix(st, cs.drop_last(), k);
        assert(cs.drop_last().take(k) =~= cs.take(k));
    }
}

/// The inner chunks keep the state's values apart from the lines and `ok`.
proof fn lemma_inner_line_fold_frame(st: CombState, cs: Seq<ChunkView>)
    ensures
        inner_line_fold(st, cs) == (CombState {
            ok: inner_line_fold(st, cs).ok,
            lines: inner_line_fold(st, cs).lines,
            ..st
        }),
    decreases cs.len(),
{
    if cs.len() > 0 {
        lemma_inner_line_fold_frame(st, cs.drop_last());
    }
}

proof fn lemma_outer_source_fold_prefix(ctx: CombCtx, st: CombState, es: Seq<SourceView>, k: int)
    requires
        outer_source_fold(ctx, st, es).ok,
        0 <= k <= es.len(),
    ensures
        outer_source_fold(ctx, st, es.take(k)).ok,
    decreases es.len(),
{
    if k == es.len() {
        assert(es.take(k) =~= es);
    } else {
        assert(outer_source_fold(ctx, st, es.drop_last()).ok);
        lemma_outer_source_fold_prefix(ctx, st, es.drop_last(), k);
        assert(es.drop_last().take(k) =~= es.take(k));
    }
}

/// The outer names never panic.
proof fn lemma_outer_name_fold_ok(st: CombState, es: Seq<NameView>)
    ensures
        outer_name_fold(st, es).ok == st.ok,
        outer_name_fold(st, es).lines == st.lines,
    decreases es.len(),
{
    if es.len() > 0 {
        lemma_outer_name_fold_ok(st, es.drop_last());
    }
}

/// Once a step has panicked, the outer chunks leave it so.
proof fn lemma_chunk_fold_failed(ctx: CombCtx, st: CombState, cs: Seq<ChunkView>)
    requires
        !st.ok,
    ensures
        !comb_chunk_fold(ctx, st, cs).0.ok,
    decreases cs.len(),
{
    if cs.len() > 0 {
        lemma_chunk_fold_failed(ctx, st, cs.drop_last());
    }
}

proof fn lemma_chunk_fold_prefix(ctx: CombCtx, st: CombState, cs: Seq<ChunkView>, k: int)
    requires
        comb_chunk_fold(ctx, st, cs).0.ok,
        0 <= k <= cs.len(),
    ensures
        comb_chunk_fold(ctx, st, cs.take(k)).0.ok,
    decreases cs.len(),
{
    if k == cs.len() {
        assert(cs.take(k) =~= cs);
    } else {
        if !comb_chunk_fold(ctx, st, cs.drop_last()).0.ok {
            lemma_chunk_fold_failed(ctx, st, cs.drop_last());
        }
        lemma_chunk_fold_prefix(ctx, st, cs.drop_last(), k);
        assert(cs.drop_last().take(k) =~= cs.take(k));
    }
}

/// The inner sources and names keep the state's lines and `ok`.
proof fn lemma_inner_folds_frame(st: CombState, es: Seq<SourceView>, ns: Seq<NameView>)
    ensures
        inner_source_fold(st, es).ok == st.ok,
        inner_source_fold(st, es).lines == st.lines,
        inner_name_fold(st, ns).ok == st.ok,
        inner_name_fold(st, ns).lines == st.lines,
    decreases es.len() + ns.len(),
{
    if es.len() > 0 {
        lemma_inner_folds_frame(st, es.drop_last(), ns);
    }
    if ns.len() > 0 {
        lemma_inner_folds_frame(st, es, ns.drop_last());
    }
}

impl Combiner {
    /// Registers one source of the outer map.
    fn outer_source(&mut self, e: &SourceEntry, Ghost(ctx): Ghost<CombCtx>, inner_name: &String, inner_map: &SourceMap, columns: bool)
        requires
            old(self).wf(),
            ctx.inner_name == inner_name@,
            ctx.inner_map == *inner_map,
            ctx.columns == columns,
            outer_source_step(ctx, old(self).state(), crate::stream::source_view(*e)).ok,
        ensures
            final(self).wf(),
            final(self).state() == outer_source_step(ctx, old(self).state(), crate::stream::source_view(*e)),
    {
        let ghost st = self.state();
        let ghost ev = crate::stream::source_view(*e);
        if e.source == *inner_name {
            let i = e.index as i64;
            let content = match &self.inner_source {
                Some(t) => Some(t.clone()),
                None => clone_opt(&e.content),
            };
            self.inner_source = clone_opt(&content);
            self.inner_source_index = i;
            self.source_index_mapping.insert(i, -2);
            let ghost st1 = self.state();
            let text = match content {
                Some(t) => t,
                None => String::new(),
            };
            let opts = MapOptions { columns, final_source: false };
            let inner = crate::stream::stream_chunks_of_source_map(text.as_str(), inner_map, &opts);
            let ghost m = inner_model(text@, *inner_map, columns);
            assert(inner.sources_view() == m.sources);
            assert(inner.names_view() == m.names);
            assert(inner.chunks_view() == m.chunks);
            let ns = inner.sources.len();
            for k in 0..ns
                invariant
                    ns == inner.sources@.len(),
                    inner.sources_view() == m.sources,
                    self.state() == inner_source_fold(st1, m.sources.take(k as int)),
                    self.wf(),
            {
                let ie = &inner.sources[k];
                let key = ie.index as i64;
                self.inner_source_index_mapping.insert(key, -2);
                self.inner_source_index_value_mapping.insert(key, (ie.source.clone(), clone_opt(&ie.content)));
                assert(m.sources.take(k + 1).drop_last() =~= m.sources.take(k as int));
                assert(m.sources[k as int] == crate::stream::source_view(*ie));
            }
            assert(m.sources.take(ns as int) =~= m.sources);
            let ghost st2 = self.state();
            let nn = inner.names.len();
            for k in 0..nn
                invariant
                    nn == inner.names@.len(),
                    inner.names_view() == m.names,
                    self.state() == inner_name_fold(st2, m.names.take(k as int)),
                    self.wf(),
            {
                let ie = &inner.names[k];
                let key = ie.index as i64;
                self.inner_name_index_mapping.insert(key, -2);
                self.inner_name_index_value_mapping.insert(key, ie.name.clone());
                assert(m.names.take(k + 1).drop_last() =~= m.names.take(k as int));
                assert(m.names[k as int] == crate::stream::name_view(*ie));
            }
            assert(m.names.take(nn as int) =~= m.names);
            let ghost st3 = self.state();
            proof {
                lemma_inner_folds_frame(st1, m.sources, m.names);
                lemma_inner_folds_frame(st2, m.sources, m.names);
            }
            let nc = inner.chunks.len();
            for k in 0..nc
                invariant
                    nc == inner.chunks@.len(),
                    inner.chunks_view() == m.chunks,
                    st3.ok,
                    inner_line_fold(st3, m.chunks).ok,
                    self.state() == inner_line_fold(st3, m.chunks.take(k as int)),
                    self.wf(),
            {
                let c = &inner.chunks[k];
                proof {
                    lemma_inner_line_fold_prefix(st3, m.chunks, k + 1);
                    assert(m.chunks.take(k + 1).drop_last() =~= m.chunks.take(k as int));
                    assert(m.chunks[k as int] == crate::stream::chunk_view(*c));
                    lemma_inner_line_fold_frame(st3, m.chunks.take(k as int));
                }
                add_line(&mut self.line_data, c);
            }
            assert(m.chunks.take(nc as int) =~= m.chunks);
        } else {
            let g = self.global_source(e.source.as_str(), e.source.as_str(), clone_opt(&e.content));
            self.source_index_mapping.insert(e.index as i64, g as i64);
        }
    }
}


/// The characters that [`read_original`] reads, from the lines `ls` of the
/// text whose characters are `tl`.
fn read_original_exec<'a>(
    ls: &Vec<&'a str>,
    Ghost(tl): Ghost<Seq<Seq<char>>>,
    line: i64,
    start: i64,
    count: usize,
) -> (res: &'a str)
    requires
        ls@.len() == tl.len(),
        forall|k: int| 0 <= k < ls@.len() ==> #[trigger] ls@[k]@ == tl[k],
        !read_panics(tl, line, start, count as int),
        line <= u32::MAX,
    ensures
        res@ == read_original(tl, line, start, count as int),
{
    if (line - 1) as usize >= ls.len() {
        let e = "";
        proof {
            reveal_strlit("");
        }
        return e;
    }
    let l = ls[(line - 1) as usize];
    let from = #[verifier::truncate] (start as usize);
    crate::stream::substring(l, from, from + count)
}

/// Whether two strings hold the same characters.
fn same_text(a: &str, b: &str) -> (res: bool)
    ensures
        res == (a@ == b@),
{
    a.to_owned() == b.to_owned()
}

impl Combiner {
    /// The inner mapping that [`find_inner`] finds.
    fn find_inner_mapping(&self, line: i64, column: i64) -> (res: Option<usize>)
        requires
            1 <= line <= u32::MAX,
        ensures
            match res {
                Some(i) => find_inner(self.state().lines, line, column) == Some(i as int),
                None => find_inner(self.state().lines, line, column) is None,
            },
            res matches Some(i) ==> line - 1 < self.state().lines.len() && i < self.state().lines[line - 1].len(),
    {
        if line as usize > self.line_data.len() {
            return None;
        }
        let data = &self.line_data[(line - 1) as usize].mappings;
        assert(data@.map_values(|m: LineMapping| line_mapping_view(m)) == self.state().lines[line - 1]);
        let l = search_columns(data, column);
        if l == 0 {
            None
        } else {
            Some(l - 1)
        }
    }

    /// The column and name of inner mapping `idx` of line `line` (counted
    /// from 0) once [`adjust_identity`] has checked it at `column`.
    fn adjust_identity(&self, line: usize, idx: usize, column: i64) -> (res: (i64, i64))
        requires
            self.wf(),
            line < self.state().lines.len(),
            idx < self.state().lines[line as int].len(),
            0 <= column <= u32::MAX,
            self.state().lines[line as int][idx as int].source_index >= 0,
            adjust_identity(self.state(), self.state().lines[line as int][idx as int], column).0,
        ensures
            (true, res.0, res.1) == adjust_identity(self.state(), self.state().lines[line as int][idx as int], column),
    {
        let ghost ev = self.state().lines[line as int][idx as int];
        let e = &self.line_data[line].mappings[idx];
        assert(line_mapping_view(*e) == ev);
        assert(entry_wf(ev));
        let loc = column - e.generated_column;
        if loc > 0 {
            match self.inner_source_index_value_mapping.get(e.source_index) {
                Some((_, Some(text))) => {
                    let ghost tl = text_lines(encode_utf8(text@));
                    assert(content_lines(self.state(), ev.source_index) == Some(tl));
                    let ls = crate::stream::lines_with_chars(text.as_str());
                    let orig = read_original_exec(&ls, Ghost(tl), e.original_line, e.original_column, loc as usize);
                    let sub = e.chunk.substring(0, loc as usize);
                    if same_text(sub, orig) {
                        (e.original_column + loc, -1)
                    } else {
                        (e.original_column, e.name_index)
                    }
                },
                _ => (e.original_column, e.name_index),
            }
        } else {
            (e.original_column, e.name_index)
        }
    }

    /// The global index of inner name `ini`, as [`inner_name_global`] gives it.
    fn inner_name_global(&mut self, ini: i64) -> (res: i64)
        ensures
            (final(self).state(), res) == inner_name_global(old(self).state(), ini),
            final(self).line_data@ == old(self).line_data@,
    {
        let known = match self.inner_name_index_mapping.get(ini) {
            Some(v) => v,
            None => -2,
        };
        if known != -2 {
            return known;
        }
        match self.inner_name_index_value_mapping.get(ini) {
            Some(name) => {
                let g = self.global_name(name.as_str());
                self.inner_name_index_mapping.insert(ini, g as i64);
                g as i64
            },
            None => {
                self.inner_name_index_mapping.insert(ini, -1);
                -1
            },
        }
    }

    /// The global index of outer name `ni`, as [`outer_name_global`] gives it.
    fn outer_name_global(&mut self, ni: i64) -> (res: i64)
        ensures
            (final(self).state(), res) == outer_name_global(old(self).state(), ni),
            final(self).line_data@ == old(self).line_data@,
    {
        let known = match self.name_index_mapping.get(ni) {
            Some(v) => v,
            None => -2,
        };
        if known != -2 {
            return known;
        }
        match self.name_index_value_mapping.get(ni) {
            Some(name) => {
                let g = self.global_name(name.as_str());
                self.name_index_mapping.insert(ni, g as i64);
                g as i64
            },
            None => {
                self.name_index_mapping.insert(ni, -1);
                -1
            },
        }
    }

    /// The name that [`name_from_outer`] keeps.
    fn name_from_outer(&mut self, isi: i64, iol: i64, ioc: i64, ni: i64) -> (res: i64)
        requires
            name_from_outer(old(self).state(), isi, iol, ioc, ni).0.ok,
            iol <= u32::MAX,
        ensures
            (final(self).state(), res) == name_from_outer(old(self).state(), isi, iol, ioc, ni),
            final(self).line_data@ == old(self).line_data@,
    {
        match self.inner_source_index_value_mapping.get(isi) {
            Some((_, Some(text))) => {
                let ghost tl = text_lines(encode_utf8(text@));
                assert(content_lines(self.state(), isi) == Some(tl));
                let name = match self.name_index_value_mapping.get(ni) {
                    Some(n) => n,
                    None => String::new(),
                };
                let ls = crate::stream::lines_with_chars(text.as_str());
                let count = name.as_str().as_bytes().len();
                let orig = read_original_exec(&ls, Ghost(tl), iol, ioc, count);
                if same_text(name.as_str(), orig) {
                    self.outer_name_global(ni)
                } else {
                    -1
                }
            },
            _ => -1,
        }
    }
}


/// The original that [`located`] builds.
fn located_exec(source: i64, line: i64, column: i64, name: i64) -> (res: Option<OriginalLocation>)
    ensures
        res == located(source, line, column, name),
{
    if source >= 0 {
        Some(
            OriginalLocation {
                source_index: #[verifier::truncate] (source as u32),
                original_line: #[verifier::truncate] (line as u32),
                original_column: #[verifier::truncate] (column as u32),
                name_index: if name >= 0 {
                    Some(#[verifier::truncate] (name as u32))
                } else {
                    None
                },
            },
        )
    } else {
        None
    }
}

/// The chunk that [`emit`] gives.
fn emit_exec(c: &Chunk, original: Option<OriginalLocation>) -> (res: Chunk)
    ensures
        crate::stream::chunk_view(res) == emit(crate::stream::chunk_view(*c), original),
{
    Chunk {
        text: clone_opt(&c.text),
        mapping: Mapping {
            generated_line: c.mapping.generated_line,
            generated_column: c.mapping.generated_column,
            original,
        },
    }
}

impl Combiner {
    /// A chunk sent on through inner mapping `idx` of line `line` (counted
    /// from 0), as [`through_inner`] does it.
    fn through_inner(&mut self, c: &Chunk, line: usize, idx: usize, ni: i64) -> (res: Chunk)
        requires
            old(self).wf(),
            line < old(self).state().lines.len(),
            idx < old(self).state().lines[line as int].len(),
            c.mapping.original is Some,
            old(self).state().lines[line as int][idx as int].source_index >= 0,
            through_inner(
                old(self).state(),
                crate::stream::chunk_view(*c),
                old(self).state().lines[line as int][idx as int],
                ni,
            ).0.ok,
        ensures
            final(self).wf(),
            (final(self).state(), crate::stream::chunk_view(res)) == through_inner(
                old(self).state(),
                crate::stream::chunk_view(*c),
                old(self).state().lines[line as int][idx as int],
                ni,
            ),
    {
        let ghost st = self.state();
        let ghost ev = st.lines[line as int][idx as int];
        assert(line_mapping_view(self.line_data@[line as int].mappings@[idx as int]) == ev);
        assert(entry_wf(ev));
        let column = match c.mapping.original {
            Some(o) => o.original_column as i64,
            None => 0,
        };
        let (ioc, ini) = self.adjust_identity(line, idx, column);
        let isi = self.line_data[line].mappings[idx].source_index;
        let iol = self.line_data[line].mappings[idx].original_line;
        let known = match self.inner_source_index_mapping.get(isi) {
            Some(v) => v,
            None => -2,
        };
        let si = if known == -2 {
            let (name, content) = match self.inner_source_index_value_mapping.get(isi) {
                Some(v) => v,
                None => (String::new(), None),
            };
            let g = self.global_source(name.as_str(), name.as_str(), content);
            self.inner_source_index_mapping.insert(isi, g as i64);
            g as i64
        } else {
            known
        };
        let fni = if ini >= 0 {
            self.inner_name_global(ini)
        } else if ni >= 0 {
            self.name_from_outer(isi, iol, ioc, ni)
        } else {
            -1
        };
        let original = located_exec(si, iol, ioc, fni);
        emit_exec(c, original)
    }

    /// A chunk passed through with its own original, as [`pass_through`]
    /// does it.
    fn pass_through(&mut self, c: &Chunk, si: i64, ol: i64, oc: i64, ni: i64) -> (res: Chunk)
        requires
            old(self).wf(),
            pass_through(old(self).state(), crate::stream::chunk_view(*c), si, ol, oc, ni).0.ok,
        ensures
            final(self).wf(),
            (final(self).state(), crate::stream::chunk_view(res)) == pass_through(
                old(self).state(),
                crate::stream::chunk_view(*c),
                si,
                ol,
                oc,
                ni,
            ),
    {
        let fsi = match self.source_index_mapping.get(si) {
            Some(v) => v,
            None => -1,
        };
        if fsi < 0 {
            return emit_exec(c, None);
        }
        let known = match self.name_index_mapping.get(ni) {
            Some(v) => v,
            None => -1,
        };
        if known == -2 {
            let name = match self.name_index_value_mapping.get(ni) {
                Some(n) => n,
                None => String::new(),
            };
            let g = self.global_name(name.as_str());
            self.name_index_mapping.insert(ni, g as i64);
            emit_exec(c, located_exec(fsi, ol, oc, g as i64))
        } else {
            emit_exec(c, located_exec(fsi, ol, oc, known))
        }
    }

    /// One chunk of the outer stream, as [`comb_chunk_step`] does it.
    fn chunk_step(&mut self, c: &Chunk, Ghost(ctx): Ghost<CombCtx>, source: &str, inner_name: &str, remove_inner_source: bool) -> (res: Chunk)
        requires
            old(self).wf(),
            ctx.source == source@,
            ctx.inner_name == inner_name@,
            ctx.remove_inner_source == remove_inner_source,
            comb_chunk_step(ctx, old(self).state(), crate::stream::chunk_view(*c)).0.ok,
        ensures
            final(self).wf(),
            (final(self).state(), crate::stream::chunk_view(res)) == comb_chunk_step(
                ctx,
                old(self).state(),
                crate::stream::chunk_view(*c),
            ),
    {
        let o = c.mapping.original;
        let si: i64 = match o {
            Some(x) => x.source_index as i64,
            None => -1,
        };
        let ol: i64 = match o {
            Some(x) => x.original_line as i64,
            None => -1,
        };
        let oc: i64 = match o {
            Some(x) => x.original_column as i64,
            None => -1,
        };
        let ni: i64 = match o {
            Some(x) => match x.name_index {
                Some(n) => n as i64,
                None => -1,
            },
            None => -1,
        };
        if si != self.inner_source_index {
            return self.pass_through(c, si, ol, oc, ni);
        }
        let found = if ol >= 1 {
            self.find_inner_mapping(ol, oc)
        } else {
            None
        };
        if let Some(idx) = found {
            let line = (ol - 1) as usize;
            if self.line_data[line].mappings[idx].source_index >= 0 {
                assert(line_mapping_view(self.line_data@[line as int].mappings@[idx as int])
                    == self.state().lines[line as int][idx as int]);
                return self.through_inner(c, line, idx, ni);
            }
        }
        if remove_inner_source {
            return emit_exec(c, None);
        }
        let current = self.source_index_mapping.get(si);
        if current == Some(-2i64) {
            let content = clone_opt(&self.inner_source);
            let g = self.global_source(inner_name, source, content);
            self.source_index_mapping.insert(si, g as i64);
        }
        self.pass_through(c, si, ol, oc, ni)
    }
}


/// The characters of an optional string slice.
pub open spec fn opt_str(s: Option<&str>) -> Option<Seq<char>> {
    match s {
        Some(t) => Some(t@),
        None => None,
    }
}

/// Streams `source` with its map `source_map`, where the source named
/// `inner_source_name` has a map of its own, `inner_source_map`: a chunk that
/// points into that source is sent on to where the inner map points (its
/// column moved along an identity mapping, its name kept where the original
/// text is that name); with `remove_inner_source`, a chunk that points into
/// the inner source where the inner map has nothing is mapped nowhere.  The
/// inner source's text is `inner_source` or else the content that the outer
/// map has for it.  Sources and names are registered under new indices as
/// they first occur.
pub fn stream_chunks_of_combined_source_map(
    source: &str,
    source_map: &SourceMap,
    inner_source_name: &str,
    inner_source: Option<&str>,
    inner_source_map: &SourceMap,
    remove_inner_source: bool,
    options: &MapOptions,
) -> (res: ChunkStream)
    requires
        streamable(source.spec_bytes(), *source_map),
        lines_of(source.spec_bytes()).len() + 2 < u32::MAX,
        combined_ok(
            source@,
            *source_map,
            inner_source_name@,
            opt_str(inner_source),
            *inner_source_map,
            remove_inner_source,
            *options,
        ),
    ensures
        res.model() == combined_model(
            source@,
            *source_map,
            inner_source_name@,
            opt_str(inner_source),
            *inner_source_map,
            remove_inner_source,
            *options,
        ),
{
    let ghost ctx = comb_ctx(source@, inner_source_name@, *inner_source_map, remove_inner_source, *options);
    let ghost outer_m = outer_model(source@, *source_map, *options);
    let outer = crate::stream::stream_chunks_of_source_map(source, source_map, options);
    assert(outer.sources_view() == outer_m.sources);
    assert(outer.names_view() == outer_m.names);
    assert(outer.chunks_view() == outer_m.chunks);
    let mut comb = Combiner::new(inner_source);
    let ghost st0 = comb.state();
    assert(st0 == comb_initial(opt_str(inner_source)));
    let inner_name = inner_source_name.to_string();
    let ghost st1 = outer_source_fold(ctx, st0, outer_m.sources);
    let ghost st2 = outer_name_fold(st1, outer_m.names);
    proof {
        if !st2.ok {
            lemma_chunk_fold_failed(ctx, st2, outer_m.chunks);
        }
        lemma_outer_name_fold_ok(st1, outer_m.names);
    }
    let ns = outer.sources.len();
    for k in 0..ns
        invariant
            ns == outer.sources@.len(),
            outer.sources_view() == outer_m.sources,
            inner_name@ == inner_source_name@,
            ctx.inner_name == inner_source_name@,
            ctx.inner_map == *inner_source_map,
            ctx.columns == options.columns,
            st1 == outer_source_fold(ctx, st0, outer_m.sources),
            st1.ok,
            comb.state() == outer_source_fold(ctx, st0, outer_m.sources.take(k as int)),
            comb.wf(),
    {
        let e = &outer.sources[k];
        proof {
            lemma_outer_source_fold_prefix(ctx, st0, outer_m.sources, k + 1);
            assert(outer_m.sources.take(k + 1).drop_last() =~= outer_m.sources.take(k as int));
            assert(outer_m.sources[k as int] == crate::stream::source_view(*e));
        }
        comb.outer_source(e, Ghost(ctx), &inner_name, inner_source_map, options.columns);
    }
    assert(outer_m.sources.take(ns as int) =~= outer_m.sources);
    let nn = outer.names.len();
    for k in 0..nn
        invariant
            nn == outer.names@.len(),
            outer.names_view() == outer_m.names,
            comb.state() == outer_name_fold(st1, outer_m.names.take(k as int)),
            comb.wf(),
            lines_wf(st1.lines),
    {
        let e = &outer.names[k];
        let key = e.index as i64;
        proof {
            assert(outer_m.names.take(k + 1).drop_last() =~= outer_m.names.take(k as int));
            assert(outer_m.names[k as int] == crate::stream::name_view(*e));
        }
        comb.name_index_mapping.insert(key, -2);
        comb.name_index_value_mapping.insert(key, e.name.clone());
    }
    assert(outer_m.names.take(nn as int) =~= outer_m.names);
    let mut chunks: Vec<Chunk> = Vec::new();
    let nc = outer.chunks.len();
    for k in 0..nc
        invariant
            nc == outer.chunks@.len(),
            outer.chunks_view() == outer_m.chunks,
            ctx.source == source@,
            ctx.inner_name == inner_source_name@,
            ctx.remove_inner_source == remove_inner_source,
            comb_chunk_fold(ctx, st2, outer_m.chunks).0.ok,
            (comb.state(), chunks@.map_values(|c: Chunk| crate::stream::chunk_view(c))) == comb_chunk_fold(
                ctx,
                st2,
                outer_m.chunks.take(k as int),
            ),
            comb.wf(),
    {
        let c = &outer.chunks[k];
        proof {
            lemma_chunk_fold_prefix(ctx, st2, outer_m.chunks, k + 1);
            assert(outer_m.chunks.take(k + 1).drop_last() =~= outer_m.chunks.take(k as int));
            assert(outer_m.chunks[k as int] == crate::stream::chunk_view(*c));
        }
        let out = comb.chunk_step(c, Ghost(ctx), source, inner_source_name, remove_inner_source);
        proof {
            crate::stream::lemma_push_view(chunks@, out);
        }
        chunks.push(out);
    }
    assert(outer_m.chunks.take(nc as int) =~= outer_m.chunks);
    ChunkStream { chunks, sources: comb.sources, names: comb.names, info: outer.info }
}


/// Whether the generated columns of `data` are in order.
pub open spec fn columns_sorted(data: Seq<LineEntry>) -> bool {
    forall|i: int, j: int| 0 <= i <= j < data.len() ==> data[i].generated_column <= data[j].generated_column
}

/// On columns in order, the binary search between `l` and `r` finds where the
/// entries at or before `column` end: those before it are at or before
/// `column`, those after it past `column`.
pub proof fn lemma_column_search_sorted(data: Seq<LineEntry>, column: i64, l: int, r: int)
    requires
        columns_sorted(data),
        0 <= l <= r <= data.len(),
    ensures
        l <= column_search(data, column, l, r) <= r,
        forall|i: int| l <= i < column_search(data, column, l, r) ==> data[i].generated_column <= column,
        forall|i: int| column_search(data, column, l, r) <= i < r ==> data[i].generated_column > column,
    decreases r - l,
{
    if l < r {
        let m = (l + r) / 2;
        if data[m].generated_column <= column {
            lemma_column_search_sorted(data, column, m + 1, r);
        } else {
            lemma_column_search_sorted(data, column, l, m);
        }
    }
}

/// Streaming through an inner map keeps every chunk of the outer stream, in
/// order, with its text and generated position: only where it points changes.
pub proof fn lemma_combined_keeps_chunks(ctx: CombCtx, st: CombState, cs: Seq<ChunkView>)
    ensures
        comb_chunk_fold(ctx, st, cs).1.len() == cs.len(),
        forall|i: int|
            0 <= i < cs.len() ==> {
                let out = #[trigger] comb_chunk_fold(ctx, st, cs).1[i];
                &&& out.0 == cs[i].0
                &&& out.1.generated_line == cs[i].1.generated_line
                &&& out.1.generated_column == cs[i].1.generated_column
            },
    decreases cs.len(),
{
    if cs.len() > 0 {
        lemma_combined_keeps_chunks(ctx, st, cs.drop_last());
        let (st1, out) = comb_chunk_fold(ctx, st, cs.drop_last());
        assert forall|i: int| 0 <= i < cs.len() implies {
            let o = #[trigger] comb_chunk_fold(ctx, st, cs).1[i];
            &&& o.0 == cs[i].0
            &&& o.1.generated_line == cs[i].1.generated_line
            &&& o.1.generated_column == cs[i].1.generated_column
        } by {
            if i < cs.len() - 1 {
                assert(comb_chunk_fold(ctx, st, cs).1[i] == out[i]);
                assert(cs.drop_last()[i] == cs[i]);
            }
        }
    }
}

/// Chunks with the same texts, one for one, hold the same text.
proof fn lemma_same_texts(a: Seq<ChunkView>, b: Seq<ChunkView>)
    requires
        a.len() == b.len(),
        forall|i: int| 0 <= i < a.len() ==> #[trigger] a[i].0 == b[i].0,
    ensures
        chunk_texts(a) == chunk_texts(b),
    decreases a.len(),
{
    if a.len() > 0 {
        assert(a[0].0 == b[0].0);
        lemma_same_texts(a.drop_first(), b.drop_first());
    }
}

/// Streaming through an inner map gives the outer text back, as streaming
/// with the outer map alone does: unless only mappings are asked for (and,
/// with columns, when the outer map's mappings are in order of position and
/// the text's columns fit the map's numbers; see `keeps_text`).
pub proof fn lemma_combined_text(
    source: Seq<char>,
    source_map: SourceMap,
    inner_source_name: Seq<char>,
    inner_source: Option<Seq<char>>,
    inner_source_map: SourceMap,
    remove_inner_source: bool,
    options: MapOptions,
)
    requires
        keeps_text(encode_utf8(source), source_map, options),
        lines_of(encode_utf8(source)).len() + 2 < u32::MAX,
    ensures
        chunk_texts(
            combined_model(
                source,
                source_map,
                inner_source_name,
                inner_source,
                inner_source_map,
                remove_inner_source,
                options,
            ).chunks,
        ) == source,
{
    let outer = outer_model(source, source_map, options);
    let ctx = comb_ctx(source, inner_source_name, inner_source_map, remove_inner_source, options);
    let st1 = outer_source_fold(ctx, comb_initial(inner_source), outer.sources);
    let st2 = outer_name_fold(st1, outer.names);
    lemma_combined_keeps_chunks(ctx, st2, outer.chunks);
    lemma_same_texts(comb_chunk_fold(ctx, st2, outer.chunks).1, outer.chunks);
    lemma_source_map_text(source, source_map, options);
}

/// Whether an outer stream has nothing to do with the inner source: its
/// sources are registered at indices 0, 1, 2, ... under distinct names none
/// of which is the inner source's, its names at 0, 1, 2, ..., and every
/// chunk's original points at a registered source and name.
pub open spec fn plain_outer(outer: StreamModel, inner_name: Seq<char>) -> bool {
    &&& forall|i: int| 0 <= i < outer.sources.len() ==> (#[trigger] outer.sources[i]).0 == i && outer.sources[i].1 != inner_name
    &&& forall|i: int, j: int|
        0 <= i < j < outer.sources.len() ==> (#[trigger] outer.sources[i]).1 != (#[trigger] outer.sources[j]).1
    &&& forall|j: int| 0 <= j < outer.names.len() ==> (#[trigger] outer.names[j]).0 == j
    &&& forall|k: int|
        0 <= k < outer.chunks.len() ==> match (#[trigger] outer.chunks[k]).1.original {
            Some(o) => o.source_index < outer.sources.len() && (o.name_index matches Some(n) ==> n
                < outer.names.len()),
            None => true,
        }
}

/// Whether `a` is `b` but for the numbering of names: the same text at the
/// same place, pointing at the same source, line and column, with a name
/// exactly where `b` has one.
pub open spec fn same_but_names(a: ChunkView, b: ChunkView) -> bool {
    &&& a.0 == b.0
    &&& a.1.generated_line == b.1.generated_line
    &&& a.1.generated_column == b.1.generated_column
    &&& match (a.1.original, b.1.original) {
        (None, None) => true,
        (Some(x), Some(y)) => x.source_index == y.source_index && x.original_line == y.original_line
            && x.original_column == y.original_column && (x.name_index is Some <==> y.name_index is Some),
        _ => false,
    }
}

/// After the outer sources that do not include the inner one: each has its
/// own index as global index, and is registered as it came.
spec fn plain_sources_state(st: CombState, es: Seq<SourceView>, k: int) -> bool {
    &&& st.ok
    &&& st.inner_index == -2
    &&& st.sources == es.take(k)
    &&& st.source_ids.dom().finite()
    &&& st.source_ids.dom().len() == k
    &&& forall|i: int| 0 <= i < k ==> st.source_ids.contains_key(#[trigger] es[i].1)
    &&& forall|key: Seq<char>| #[trigger] st.source_ids.contains_key(key) ==> exists|i: int| 0 <= i < k && es[i].1 == key
    &&& forall|i: i64| #[trigger] st.source_index.contains_key(i) <==> 0 <= i < k
    &&& forall|i: i64| 0 <= i < k ==> #[trigger] st.source_index[i] == i
    &&& st.name_index == Map::<i64, i64>::empty()
    &&& st.name_values == Map::<i64, Seq<char>>::empty()
}

proof fn lemma_plain_sources(ctx: CombCtx, inner_source: Option<Seq<char>>, es: Seq<SourceView>, k: int)
    requires
        0 <= k <= es.len(),
        forall|i: int| 0 <= i < es.len() ==> (#[trigger] es[i]).0 == i && es[i].1 != ctx.inner_name,
        forall|i: int, j: int| 0 <= i < j < es.len() ==> (#[trigger] es[i]).1 != (#[trigger] es[j]).1,
    ensures
        plain_sources_state(outer_source_fold(ctx, comb_initial(inner_source), es.take(k)), es, k),
    decreases k,
{
    let st0 = comb_initial(inner_source);
    if k == 0 {
        assert(es.take(0) =~= Seq::<SourceView>::empty());
        assert(st0.source_ids.dom() =~= Set::<Seq<char>>::empty());
    } else {
        lemma_plain_sources(ctx, inner_source, es, k - 1);
        assert(es.take(k).drop_last() =~= es.take(k - 1));
        let st = outer_source_fold(ctx, st0, es.take(k - 1));
        let e = es[k - 1];
        assert(es.take(k).last() == e);
        assert(!st.source_ids.contains_key(e.1)) by {
            if st.source_ids.contains_key(e.1) {
                let i = choose|i: int| 0 <= i < k - 1 && es[i].1 == e.1;
                assert(es[i].1 != es[k - 1].1);
            }
        }
        let st2 = outer_source_fold(ctx, st0, es.take(k));
        assert(st.source_ids.insert(e.1, (k - 1) as u32).dom() == st.source_ids.dom().insert(e.1));
        assert(es.take(k) =~= es.take(k - 1).push(e));
        assert forall|key: Seq<char>| #[trigger] st2.source_ids.contains_key(key) implies exists|i: int| 0 <= i < k && es[i].1 == key by {
            if key != e.1 {
                assert(st.source_ids.contains_key(key));
                let i = choose|i: int| 0 <= i < k - 1 && es[i].1 == key;
                assert(0 <= i < k && es[i].1 == key);
            } else {
                assert(es[k - 1].1 == key);
            }
        }
        assert forall|i: int| 0 <= i < k implies st2.source_ids.contains_key(#[trigger] es[i].1) by {
            if i < k - 1 {
                assert(st.source_ids.contains_key(es[i].1));
            }
        }
    }
}

proof fn lemma_plain_names(st: CombState, ns: Seq<NameView>, k: int)
    requires
        0 <= k <= ns.len(),
        forall|j: int| 0 <= j < ns.len() ==> (#[trigger] ns[j]).0 == j,
        st.name_index == Map::<i64, i64>::empty(),
        st.name_values == Map::<i64, Seq<char>>::empty(),
    ensures
        ({
            let r = outer_name_fold(st, ns.take(k));
            &&& r == CombState { name_index: r.name_index, name_values: r.name_values, ..st }
            &&& forall|j: i64| #[trigger] r.name_index.contains_key(j) <==> 0 <= j < k
            &&& forall|j: i64| 0 <= j < k ==> #[trigger] r.name_index[j] == -2
            &&& forall|j: i64| 0 <= j < k ==> #[trigger] r.name_values.contains_key(j)
        }),
    decreases k,
{
    if k == 0 {
        assert(ns.take(0) =~= Seq::<NameView>::empty());
    } else {
        lemma_plain_names(st, ns, k - 1);
        assert(ns.take(k).drop_last() =~= ns.take(k - 1));
        assert(ns.take(k).last() == ns[k - 1]);
    }
}

/// While chunks are sent on: every outer source has its own global index,
/// and every outer name either waits for one or has one.
spec fn plain_chunk_state(st: CombState, srcs: Seq<SourceView>, nn: int) -> bool {
    &&& st.ok
    &&& st.inner_index == -2
    &&& st.sources == srcs
    &&& forall|i: i64| #[trigger] st.source_index.contains_key(i) <==> 0 <= i < srcs.len()
    &&& forall|i: i64| 0 <= i < srcs.len() ==> #[trigger] st.source_index[i] == i
    &&& forall|j: i64| #[trigger] st.name_index.contains_key(j) <==> 0 <= j < nn
    &&& forall|j: i64| 0 <= j < nn ==> #[trigger] st.name_index[j] == -2 || st.name_index[j] >= 0
    &&& forall|j: i64| 0 <= j < nn ==> #[trigger] st.name_values.contains_key(j)
}

proof fn lemma_plain_chunks(ctx: CombCtx, st: CombState, cs: Seq<ChunkView>, srcs: Seq<SourceView>, nn: int)
    requires
        plain_chunk_state(st, srcs, nn),
        forall|k: int|
            0 <= k < cs.len() ==> match (#[trigger] cs[k]).1.original {
                Some(o) => o.source_index < srcs.len() && (o.name_index matches Some(n) ==> n < nn),
                None => true,
            },
    ensures
        plain_chunk_state(comb_chunk_fold(ctx, st, cs).0, srcs, nn),
        comb_chunk_fold(ctx, st, cs).1.len() == cs.len(),
        forall|k: int| 0 <= k < cs.len() ==> same_but_names(#[trigger] comb_chunk_fold(ctx, st, cs).1[k], cs[k]),
    decreases cs.len(),
{
    if cs.len() > 0 {
        lemma_plain_chunks(ctx, st, cs.drop_last(), srcs, nn);
        let (st1, out) = comb_chunk_fold(ctx, st, cs.drop_last());
        let c = cs.last();
        assert(c == cs[cs.len() - 1]);
        let (st2, c2) = comb_chunk_step(ctx, st1, c);
        assert(same_but_names(c2, c) && plain_chunk_state(st2, srcs, nn)) by {
            match c.1.original {
                None => {
                    assert(!st1.source_index.contains_key(-1i64));
                },
                Some(o) => {
                    let si = o.source_index as i64;
                    assert(st1.source_index.contains_key(si));
                    match o.name_index {
                        None => {
                            assert(!st1.name_index.contains_key(-1i64));
                        },
                        Some(n) => {
                            let ni = n as i64;
                            assert(st1.name_index.contains_key(ni));
                            assert(st1.name_values.contains_key(ni));
                            if st1.name_index[ni] == -2 {
                                let (s1, g) = global_name(st1, st1.name_values[ni]);
                                let s2 = CombState { name_index: s1.name_index.insert(ni, g as i64), ..s1 };
                                assert(forall|j: i64| #[trigger] s2.name_index.contains_key(j) <==> 0 <= j < nn);
                                assert(forall|j: i64| 0 <= j < nn ==> #[trigger] s2.name_index[j] == -2 || s2.name_index[j] >= 0);
                            }
                        },
                    }
                },
            }
        }
        assert forall|k: int| 0 <= k < cs.len() implies same_but_names(#[trigger] comb_chunk_fold(ctx, st, cs).1[k], cs[k]) by {
            if k < cs.len() - 1 {
                assert(comb_chunk_fold(ctx, st, cs).1[k] == out[k]);
                assert(cs.drop_last()[k] == cs[k]);
            }
        }
    }
}

/// Streaming through an inner map whose source the outer map never names is
/// streaming with the outer map alone: it runs without panicking, registers
/// the outer sources as they are, ends where the outer stream ends, and sends
/// on every chunk as it is but for the numbering of names (given in order of
/// first use).
pub proof fn lemma_combined_plain(
    source: Seq<char>,
    source_map: SourceMap,
    inner_source_name: Seq<char>,
    inner_source: Option<Seq<char>>,
    inner_source_map: SourceMap,
    remove_inner_source: bool,
    options: MapOptions,
)
    requires
        plain_outer(outer_model(source, source_map, options), inner_source_name),
    ensures
        combined_ok(source, source_map, inner_source_name, inner_source, inner_source_map, remove_inner_source, options),
        ({
            let cm = combined_model(source, source_map, inner_source_name, inner_source, inner_source_map, remove_inner_source, options);
            let outer = outer_model(source, source_map, options);
            &&& cm.sources == outer.sources
            &&& cm.info == outer.info
            &&& cm.chunks.len() == outer.chunks.len()
            &&& forall|k: int| 0 <= k < outer.chunks.len() ==> same_but_names(#[trigger] cm.chunks[k], outer.chunks[k])
        }),
{
    let outer = outer_model(source, source_map, options);
    let ctx = comb_ctx(source, inner_source_name, inner_source_map, remove_inner_source, options);
    let es = outer.sources;
    let ns = outer.names;
    lemma_plain_sources(ctx, inner_source, es, es.len() as int);
    assert(es.take(es.len() as int) =~= es);
    let st1 = outer_source_fold(ctx, comb_initial(inner_source), es);
    lemma_plain_names(st1, ns, ns.len() as int);
    assert(ns.take(ns.len() as int) =~= ns);
    let st2 = outer_name_fold(st1, ns);
    assert(plain_chunk_state(st2, es, ns.len() as int));
    lemma_plain_chunks(ctx, st2, outer.chunks, es, ns.len() as int);
}

/// A chunk that points `loc > 0` characters into the chunk of the inner
/// mapping that covers it, where those characters of that chunk are the
/// characters of the inner source at the inner mapping's original: it is sent
/// on to the inner mapping's original line, with the original column moved
/// by `loc`, keeping its text and generated position.
pub proof fn lemma_identity_moves_column(ctx: CombCtx, st: CombState, c: ChunkView, j: int, ls: Seq<Seq<char>>)
    requires
        st.ok,
        c.1.original is Some,
        c.1.original.unwrap().source_index as i64 == st.inner_index,
        c.1.original.unwrap().original_line >= 1,
        find_inner(
            st.lines,
            c.1.original.unwrap().original_line as i64,
            c.1.original.unwrap().original_column as i64,
        ) == Some(j),
        ({
            let e = st.lines[c.1.original.unwrap().original_line - 1][j];
            let loc = c.1.original.unwrap().original_column - e.generated_column;
            &&& entry_wf(e)
            &&& e.source_index >= 0
            &&& st.inner_source_index.contains_key(e.source_index) ==> (st.inner_source_index[e.source_index]
                >= 0 || st.inner_source_index[e.source_index] == -2)
            &&& loc > 0
            &&& content_lines(st, e.source_index) == Some(ls)
            &&& !read_panics(ls, e.original_line, e.original_column, loc)
            &&& sub_chars(e.text, 0, loc) == read_original(ls, e.original_line, e.original_column, loc)
        }),
    ensures
        ({
            let e = st.lines[c.1.original.unwrap().original_line - 1][j];
            let loc = c.1.original.unwrap().original_column - e.generated_column;
            let out = comb_chunk_step(ctx, st, c).1;
            &&& out.0 == c.0
            &&& out.1.generated_line == c.1.generated_line
            &&& out.1.generated_column == c.1.generated_column
            &&& out.1.original is Some
            &&& out.1.original.unwrap().original_line == e.original_line as u32
            &&& out.1.original.unwrap().original_column == (e.original_column + loc) as u32
        }),
{
    let o = c.1.original.unwrap();
    let ol = o.original_line as i64;
    let oc = o.original_column as i64;
    assert(1 <= ol <= st.lines.len());
    let e = st.lines[ol - 1][j];
    let loc = oc - e.generated_column;
    assert(adjust_identity(st, e, oc) == (true, (e.original_column + loc) as i64, -1i64));
    let ni: i64 = match o.name_index {
        Some(n) => n as i64,
        None => -1i64,
    };
    assert(comb_chunk_step(ctx, st, c) == through_inner(st, c, e, ni));
}

} // verus!
