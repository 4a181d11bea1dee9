//! Mappings, the unit of a source map, and what the two `mappings`
//! encodings (with columns, and lines only) write for a list of them.
use vstd::prelude::*;

use crate::vlq::{b64_char, vlq};

verus! {

/// Where a generated position came from.
#[derive(Clone, Copy, Debug, PartialEq, Eq, Structural)]
pub struct OriginalLocation {
    pub source_index: u32,
    pub original_line: u32,
    pub original_column: u32,
    pub name_index: Option<u32>,
}

/// A generated position (lines count from 1, columns from 0) and, when it
/// maps somewhere, its original location.
#[derive(Clone, Copy, Debug, PartialEq, Eq, Structural)]
pub struct Mapping {
    pub generated_line: u32,
    pub generated_column: u32,
    pub original: Option<OriginalLocation>,
}

/// Options for streaming the chunks of a source.
#[derive(Clone, Copy, Debug, PartialEq, Eq, Structural)]
pub struct MapOptions {
    /// If false, only the first mapping of each line is kept, at column 0.
    pub columns: bool,
    /// If true, only the mappings matter and chunk texts are left out.
    pub final_source: bool,
}

impl MapOptions {
    /// Options with the given `columns` and `final_source` unset.
    pub fn new(columns: bool) -> (res: MapOptions)
        ensures
            res == (MapOptions { columns, final_source: false }),
    {
        MapOptions { columns, final_source: false }
    }
}

impl Default for MapOptions {
    fn default() -> (res: MapOptions)
        ensures
            res == (MapOptions { columns: true, final_source: false }),
    {
        MapOptions { columns: true, final_source: false }
    }
}

/// `n` semicolons, one per generated line that is passed.
pub open spec fn semicolons(n: int) -> Seq<u8> {
    Seq::new(n as nat, |i: int| 59u8)
}

/// The state of the encoder with columns between two mappings.
#[derive(Clone, Copy, Debug, PartialEq, Eq, Structural)]
pub struct FullState {
    pub current_line: u32,
    pub current_column: u32,
    pub current_original_line: u32,
    pub current_original_column: u32,
    pub current_source_index: u32,
    pub current_name_index: u32,
    pub active_mapping: bool,
    pub active_name: bool,
    pub initial: bool,
}

/// The state before the first mapping.
pub open spec fn full_initial() -> FullState {
    FullState {
        current_line: 1,
        current_column: 0,
        current_original_line: 1,
        current_original_column: 0,
        current_source_index: 0,
        current_name_index: 0,
        active_mapping: false,
        active_name: false,
        initial: true,
    }
}

/// Whether the encoder with columns writes nothing for `m`: a mapping that
/// repeats the active original location on the same line, or a mapping to
/// no original while none is active.
pub open spec fn full_skips(st: FullState, m: Mapping) -> bool {
    if st.active_mapping && st.current_line == m.generated_line {
        match m.original {
            Some(o) => o.source_index == st.current_source_index && o.original_line
                == st.current_original_line && o.original_column == st.current_original_column
                && !st.active_name && o.name_index is None,
            None => false,
        }
    } else {
        m.original is None
    }
}

/// What the encoder with columns writes before the segment of `m`: a `;`
/// for each line passed, else a `,` unless this is the first segment.
pub open spec fn full_separator(st: FullState, m: Mapping) -> Seq<u8> {
    if st.current_line < m.generated_line {
        semicolons(m.generated_line - st.current_line)
    } else if st.initial {
        seq![]
    } else {
        seq![44u8]
    }
}

/// The segment of `m`: each field as a VLQ delta to the last value written.
pub open spec fn full_segment(st: FullState, m: Mapping) -> Seq<u8> {
    let column_base = if st.current_line < m.generated_line { 0 } else { st.current_column };
    vlq(m.generated_column - column_base) + match m.original {
        Some(o) => full_original_text(st, o),
        None => seq![],
    }
}

/// The original-location part of a segment: source, line, column and name,
/// each as a VLQ delta to the last value written.
pub open spec fn full_original_text(st: FullState, o: OriginalLocation) -> Seq<u8> {
    vlq(o.source_index - st.current_source_index) + vlq(o.original_line - st.current_original_line)
        + vlq(o.original_column - st.current_original_column) + match o.name_index {
        Some(n) => vlq(n - st.current_name_index),
        None => seq![],
    }
}

/// The state after `m` has been written.
pub open spec fn full_next(st: FullState, m: Mapping) -> FullState {
    let st1 = if st.current_line < m.generated_line {
        FullState { current_line: m.generated_line, current_column: 0, initial: false, ..st }
    } else {
        FullState { initial: false, ..st }
    };
    match m.original {
        Some(o) => FullState {
            current_column: m.generated_column,
            active_mapping: true,
            current_source_index: o.source_index,
            current_original_line: o.original_line,
            current_original_column: o.original_column,
            current_name_index: match o.name_index {
                Some(n) => n,
                None => st1.current_name_index,
            },
            active_name: o.name_index is Some,
            ..st1
        },
        None => FullState { current_column: m.generated_column, active_mapping: false, ..st1 },
    }
}

/// One step of the encoder with columns: the next state and what it writes.
pub open spec fn full_step(st: FullState, m: Mapping) -> (FullState, Seq<u8>) {
    if full_skips(st, m) {
        (st, seq![])
    } else {
        (full_next(st, m), full_separator(st, m) + full_segment(st, m))
    }
}

/// The encoder with columns run over `ms` from `st`: the final state and the
/// text written.
pub open spec fn full_run(st: FullState, ms: Seq<Mapping>) -> (FullState, Seq<u8>)
    decreases ms.len(),
{
    if ms.len() == 0 {
        (st, seq![])
    } else {
        let (st1, out1) = full_run(st, ms.drop_last());
        let (st2, out2) = full_step(st1, ms.last());
        (st2, out1 + out2)
    }
}

/// The `mappings` text with columns of `ms`.
pub open spec fn full_mappings(ms: Seq<Mapping>) -> Seq<u8> {
    full_run(full_initial(), ms).1
}

/// The state of the lines-only encoder between two mappings.
#[derive(Clone, Copy, Debug, PartialEq, Eq, Structural)]
pub struct LinesState {
    pub last_written_line: u32,
    pub current_line: u32,
    pub current_source_index: u32,
    pub current_original_line: u32,
}

/// The state before the first mapping.
pub open spec fn lines_initial() -> LinesState {
    LinesState {
        last_written_line: 0,
        current_line: 1,
        current_source_index: 0,
        current_original_line: 1,
    }
}

/// Whether the lines-only encoder writes nothing for `m`: a mapping to no
/// original, or a further one on a line already written.
pub open spec fn lines_skips(st: LinesState, m: Mapping) -> bool {
    m.original is None || st.last_written_line == m.generated_line
}

/// What the lines-only encoder writes for `m` when it writes something: a
/// `;` per line passed, then a segment at column 0 whose original column is 0.
pub open spec fn lines_written(st: LinesState, m: Mapping) -> Seq<u8> {
    let o = m.original.unwrap();
    semicolons(m.generated_line - st.current_line) + seq![b64_char(0)] + vlq(
        o.source_index - st.current_source_index,
    ) + vlq(o.original_line - st.current_original_line) + seq![b64_char(0)]
}

/// One step of the lines-only encoder: the next state and what it writes.
pub open spec fn lines_step(st: LinesState, m: Mapping) -> (LinesState, Seq<u8>) {
    if lines_skips(st, m) {
        (st, seq![])
    } else {
        let o = m.original.unwrap();
        (
            LinesState {
                last_written_line: m.generated_line,
                current_line: m.generated_line,
                current_source_index: o.source_index,
                current_original_line: o.original_line,
            },
            lines_written(st, m),
        )
    }
}

/// Whether the lines-only encoder can take `m` in state `st`: a mapping that
/// it writes must not lie on a line before the current one.
pub open spec fn lines_accepts(st: LinesState, m: Mapping) -> bool {
    lines_skips(st, m) || st.current_line <= m.generated_line
}

/// The lines-only encoder run over `ms` from `st`.
pub open spec fn lines_run(st: LinesState, ms: Seq<Mapping>) -> (LinesState, Seq<u8>)
    decreases ms.len(),
{
    if ms.len() == 0 {
        (st, seq![])
    } else {
        let (st1, out1) = lines_run(st, ms.drop_last());
        let (st2, out2) = lines_step(st1, ms.last());
        (st2, out1 + out2)
    }
}

/// Whether the lines-only encoder can take all of `ms` from `st`.
pub open spec fn lines_valid(st: LinesState, ms: Seq<Mapping>) -> bool
    decreases ms.len(),
{
    if ms.len() == 0 {
        true
    } else {
        lines_valid(st, ms.drop_last()) && lines_accepts(lines_run(st, ms.drop_last()).0, ms.last())
    }
}

/// The lines-only `mappings` text of `ms`.
pub open spec fn lines_mappings(ms: Seq<Mapping>) -> Seq<u8> {
    lines_run(lines_initial(), ms).1
}

} // verus!
