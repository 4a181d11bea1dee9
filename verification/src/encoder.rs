//! Incremental encoders of the `mappings` field: mappings are fed one at a
//! time and the text is taken at the end.
use vstd::prelude::*;

use crate::mapping::{
    full_initial, full_next, full_original_text, full_run, lines_run, full_separator, full_segment, full_skips, full_step, lines_accepts, lines_initial,
    lines_skips, lines_step, lines_written, semicolons, FullState, LinesState, Mapping, OriginalLocation,
};
use crate::text::{ascii_chars, string_from_ascii};
use crate::vlq::{encode, is_ascii_bytes, lemma_vlq_ascii, vlq};

verus! {

/// The `mappings` text with columns, as mappings are fed to it.
pub struct FullMappingsEncoder {
    current_line: u32,
    current_column: u32,
    current_original_line: u32,
    current_original_column: u32,
    current_source_index: u32,
    current_name_index: u32,
    active_mapping: bool,
    active_name: bool,
    initial: bool,
    mappings: Vec<u8>,
}

/// Appends `n` semicolons.
fn push_semicolons(out: &mut Vec<u8>, n: u32)
    ensures
        final(out)@ == old(out)@ + semicolons(n as int),
{
    let mut i: u32 = 0;
    while i < n
        invariant
            i <= n,
            out@ == old(out)@ + semicolons(i as int),
        decreases n - i,
    {
        out.push(59u8);
        i = i + 1;
        assert(out@ =~= old(out)@ + semicolons(i as int));
    }
}

proof fn lemma_concat_ascii(a: Seq<u8>, b: Seq<u8>)
    requires
        is_ascii_bytes(a),
        is_ascii_bytes(b),
    ensures
        is_ascii_bytes(a + b),
{
    assert forall|i: int| 0 <= i < (a + b).len() implies #[trigger] (a + b)[i] < 128 by {
        if i >= a.len() {
            assert((a + b)[i] == b[i - a.len()]);
        }
    }
}

/// What one step of the encoder with columns writes is ASCII.
pub proof fn lemma_full_step_ascii(st: FullState, m: Mapping)
    ensures
        is_ascii_bytes(full_step(st, m).1),
{
    if !full_skips(st, m) {
        let column_base = if st.current_line < m.generated_line { 0 } else { st.current_column };
        lemma_vlq_ascii(m.generated_column - column_base);
        let mut seg = vlq(m.generated_column - column_base);
        if let Some(o) = m.original {
            lemma_vlq_ascii(o.source_index - st.current_source_index);
            lemma_vlq_ascii(o.original_line - st.current_original_line);
            lemma_vlq_ascii(o.original_column - st.current_original_column);
            lemma_concat_ascii(
                vlq(o.source_index - st.current_source_index),
                vlq(o.original_line - st.current_original_line),
            );
            let t = vlq(o.source_index - st.current_source_index) + vlq(
                o.original_line - st.current_original_line,
            );
            lemma_concat_ascii(t, vlq(o.original_column - st.current_original_column));
            let t2 = t + vlq(o.original_column - st.current_original_column);
            let tail = match o.name_index {
                Some(n) => vlq(n - st.current_name_index),
                None => seq![],
            };
            if let Some(n) = o.name_index {
                lemma_vlq_ascii(n - st.current_name_index);
            }
            lemma_concat_ascii(t2, tail);
            lemma_concat_ascii(seg, t2 + tail);
            assert(full_segment(st, m) == seg + (t2 + tail));
        }
        lemma_concat_ascii(full_separator(st, m), full_segment(st, m));
    }
}

/// What one step of the lines-only encoder writes is ASCII.
pub proof fn lemma_lines_step_ascii(st: LinesState, m: Mapping)
    ensures
        is_ascii_bytes(lines_step(st, m).1),
{
    if !lines_skips(st, m) {
        let o = m.original.unwrap();
        let a = semicolons(m.generated_line - st.current_line);
        let b = seq![crate::vlq::b64_char(0)];
        let c = vlq(o.source_index - st.current_source_index);
        let d = vlq(o.original_line - st.current_original_line);
        lemma_vlq_ascii(o.source_index - st.current_source_index);
        lemma_vlq_ascii(o.original_line - st.current_original_line);
        lemma_concat_ascii(a, b);
        lemma_concat_ascii(a + b, c);
        lemma_concat_ascii(a + b + c, d);
        lemma_concat_ascii(a + b + c + d, b);
    }
}

impl FullMappingsEncoder {
    /// The state between two mappings.
    pub closed spec fn state(&self) -> FullState {
        FullState {
            current_line: self.current_line,
            current_column: self.current_column,
            current_original_line: self.current_original_line,
            current_original_column: self.current_original_column,
            current_source_index: self.current_source_index,
            current_name_index: self.current_name_index,
            active_mapping: self.active_mapping,
            active_name: self.active_name,
            initial: self.initial,
        }
    }

    /// The text written so far.
    pub closed spec fn written(&self) -> Seq<u8> {
        self.mappings@
    }

    /// An encoder to which nothing has been fed.
    pub fn new() -> (res: Self)
        ensures
            res.state() == full_initial(),
            res.written() == Seq::<u8>::empty(),
    {
        FullMappingsEncoder {
            current_line: 1,
            current_column: 0,
            current_original_line: 1,
            current_original_column: 0,
            current_source_index: 0,
            current_name_index: 0,
            active_mapping: false,
            active_name: false,
            initial: true,
            mappings: Vec::new(),
        }
    }

    /// Feeds one mapping.
    pub fn encode(&mut self, mapping: &Mapping)
        ensures
            final(self).state() == full_step(old(self).state(), *mapping).0,
            final(self).written() == old(self).written() + full_step(old(self).state(), *mapping).1,
    {
        let ghost st = self.state();
        let ghost start = self.mappings@;
        if self.active_mapping && self.current_line == mapping.generated_line {
            // A mapping is still active
            if let Some(original) = &mapping.original {
                if original.source_index == self.current_source_index
                    && original.original_line == self.current_original_line
                    && original.original_column == self.current_original_column
                    && !self.active_name && original.name_index.is_none() {
                    // avoid repeating the same original mapping
                    return ;
                }
            }
        } else {
            // No mapping is active
            if mapping.original.is_none() {
                // avoid writing unnecessary generated mappings
                return ;
            }
        }
        self.write_separator(mapping);
        self.write_segment(mapping, Ghost(st));
        assert(self.mappings@ =~= start + full_separator(st, *mapping) + full_segment(st, *mapping));
    }

    /// Writes what comes before the segment of `mapping` and moves to its line.
    fn write_separator(&mut self, mapping: &Mapping)
        ensures
            final(self).written() == old(self).written() + full_separator(old(self).state(), *mapping),
            final(self).state() == (if old(self).state().current_line < mapping.generated_line {
                FullState {
                    current_line: mapping.generated_line,
                    current_column: 0,
                    initial: false,
                    ..old(self).state()
                }
            } else {
                FullState { initial: false, ..old(self).state() }
            }),
    {
        if self.current_line < mapping.generated_line {
            push_semicolons(&mut self.mappings, mapping.generated_line - self.current_line);
            self.current_line = mapping.generated_line;
            self.current_column = 0;
            self.initial = false;
        } else if self.initial {
            self.initial = false;
            assert(self.mappings@ =~= old(self).mappings@ + seq![]);
        } else {
            self.mappings.push(44u8);
        }
    }

    /// Writes the segment of `mapping`, after its separator.
    fn write_segment(&mut self, mapping: &Mapping, Ghost(st): Ghost<FullState>)
        requires
            !full_skips(st, *mapping),
            old(self).state() == (if st.current_line < mapping.generated_line {
                FullState { current_line: mapping.generated_line, current_column: 0, initial: false, ..st }
            } else {
                FullState { initial: false, ..st }
            }),
        ensures
            final(self).written() == old(self).written() + full_segment(st, *mapping),
            final(self).state() == full_next(st, *mapping),
    {
        let ghost start = self.mappings@;
        encode(&mut self.mappings, mapping.generated_column, self.current_column);
        self.current_column = mapping.generated_column;
        if let Some(original) = &mapping.original {
            self.active_mapping = true;
            self.write_original(original);
        } else {
            self.active_mapping = false;
        }
        assert(self.mappings@ =~= start + full_segment(st, *mapping));
    }

    /// Writes the original-location part of a segment.
    fn write_original(&mut self, original: &OriginalLocation)
        ensures
            final(self).written() == old(self).written() + full_original_text(old(self).state(), *original),
            final(self).state() == (FullState {
                current_source_index: original.source_index,
                current_original_line: original.original_line,
                current_original_column: original.original_column,
                current_name_index: match original.name_index {
                    Some(n) => n,
                    None => old(self).state().current_name_index,
                },
                active_name: original.name_index is Some,
                ..old(self).state()
            }),
    {
        let ghost st = self.state();
        let ghost start = self.mappings@;
        if original.source_index == self.current_source_index {
            self.mappings.push(65u8);
            assert(vlq(original.source_index - self.current_source_index) == seq![65u8]);
        } else {
            encode(&mut self.mappings, original.source_index, self.current_source_index);
            self.current_source_index = original.source_index;
        }
        encode(&mut self.mappings, original.original_line, self.current_original_line);
        self.current_original_line = original.original_line;
        let ghost mid = self.mappings@;
        assert(mid =~= start + vlq(original.source_index - st.current_source_index) + vlq(
            original.original_line - st.current_original_line,
        ));
        if original.original_column == self.current_original_column {
            self.mappings.push(65u8);
            assert(vlq(original.original_column - self.current_original_column) == seq![65u8]);
        } else {
            encode(&mut self.mappings, original.original_column, self.current_original_column);
            self.current_original_column = original.original_column;
        }
        let ghost mid2 = self.mappings@;
        assert(mid2 =~= mid + vlq(original.original_column - st.current_original_column));
        if let Some(name_index) = original.name_index {
            encode(&mut self.mappings, name_index, self.current_name_index);
            self.current_name_index = name_index;
            self.active_name = true;
        } else {
            self.active_name = false;
            assert(self.mappings@ =~= mid2 + seq![]);
        }
    }

    /// The text written, as a string.
    pub fn drain(self) -> (res: String)
        requires
            is_ascii_bytes(self.written()),
        ensures
            res@ == ascii_chars(self.written()),
    {
        string_from_ascii(self.mappings.as_slice())
    }
}

/// The lines-only `mappings` text, as mappings are fed to it.
pub struct LinesOnlyMappingsEncoder {
    last_written_line: u32,
    current_line: u32,
    current_source_index: u32,
    current_original_line: u32,
    mappings: Vec<u8>,
}

impl LinesOnlyMappingsEncoder {
    /// The state between two mappings.
    pub closed spec fn state(&self) -> LinesState {
        LinesState {
            last_written_line: self.last_written_line,
            current_line: self.current_line,
            current_source_index: self.current_source_index,
            current_original_line: self.current_original_line,
        }
    }

    /// The text written so far.
    pub closed spec fn written(&self) -> Seq<u8> {
        self.mappings@
    }

    /// An encoder to which nothing has been fed.
    pub fn new() -> (res: Self)
        ensures
            res.state() == lines_initial(),
            res.written() == Seq::<u8>::empty(),
    {
        LinesOnlyMappingsEncoder {
            last_written_line: 0,
            current_line: 1,
            current_source_index: 0,
            current_original_line: 1,
            mappings: Vec::new(),
        }
    }

    /// Feeds one mapping.
    pub fn encode(&mut self, mapping: &Mapping)
        requires
            lines_accepts(old(self).state(), *mapping),
        ensures
            final(self).state() == lines_step(old(self).state(), *mapping).0,
            final(self).written() == old(self).written() + lines_step(old(self).state(), *mapping).1,
    {
        let ghost st = self.state();
        let ghost start = self.mappings@;
        if let Some(original) = &mapping.original {
            if self.last_written_line == mapping.generated_line {
                // avoid writing multiple original mappings per line
                return ;
            }
            self.last_written_line = mapping.generated_line;
            let line_delta = mapping.generated_line - self.current_line;
            if line_delta > 0 {
                push_semicolons(&mut self.mappings, line_delta);
            }
            assert(self.mappings@ =~= start + semicolons(line_delta as int));
            self.current_line = mapping.generated_line;
            if original.source_index == self.current_source_index {
                if self.current_original_line < u32::MAX && original.original_line
                    == self.current_original_line + 1 {
                    self.current_original_line = original.original_line;
                    self.mappings.push(65u8);
                    self.mappings.push(65u8);
                    self.mappings.push(67u8);
                    self.mappings.push(65u8);
                    assert(vlq(0) == seq![65u8]);
                    assert(vlq(1) == seq![67u8]);
                } else {
                    self.mappings.push(65u8);
                    self.mappings.push(65u8);
                    encode(&mut self.mappings, original.original_line, self.current_original_line);
                    self.current_original_line = original.original_line;
                    self.mappings.push(65u8);
                    assert(vlq(0) == seq![65u8]);
                }
            } else {
                self.mappings.push(65u8);
                encode(&mut self.mappings, original.source_index, self.current_source_index);
                self.current_source_index = original.source_index;
                encode(&mut self.mappings, original.original_line, self.current_original_line);
                self.current_original_line = original.original_line;
                self.mappings.push(65u8);
            }
            assert(self.mappings@ =~= start + lines_written(st, *mapping));
        }
    }

    /// The text written, as a string.
    pub fn drain(self) -> (res: String)
        requires
            is_ascii_bytes(self.written()),
        ensures
            res@ == ascii_chars(self.written()),
    {
        string_from_ascii(self.mappings.as_slice())
    }
}

/// What the encoder with columns writes over any list of mappings is ASCII.
pub proof fn lemma_full_run_ascii(st: FullState, ms: Seq<Mapping>)
    ensures
        is_ascii_bytes(full_run(st, ms).1),
    decreases ms.len(),
{
    if ms.len() > 0 {
        lemma_full_run_ascii(st, ms.drop_last());
        lemma_full_step_ascii(full_run(st, ms.drop_last()).0, ms.last());
        lemma_concat_ascii(
            full_run(st, ms.drop_last()).1,
            full_step(full_run(st, ms.drop_last()).0, ms.last()).1,
        );
    }
}

/// What the lines-only encoder writes over any list of mappings is ASCII.
pub proof fn lemma_lines_run_ascii(st: LinesState, ms: Seq<Mapping>)
    ensures
        is_ascii_bytes(lines_run(st, ms).1),
    decreases ms.len(),
{
    if ms.len() > 0 {
        lemma_lines_run_ascii(st, ms.drop_last());
        lemma_lines_step_ascii(lines_run(st, ms.drop_last()).0, ms.last());
        lemma_concat_ascii(
            lines_run(st, ms.drop_last()).1,
            lines_step(lines_run(st, ms.drop_last()).0, ms.last()).1,
        );
    }
}

/// Either encoder, chosen by whether columns are kept.
pub enum MappingsEncoder {
    Full(FullMappingsEncoder),
    LinesOnly(LinesOnlyMappingsEncoder),
}

impl MappingsEncoder {
    /// The text written so far.
    pub open spec fn written(&self) -> Seq<u8> {
        match self {
            MappingsEncoder::Full(e) => e.written(),
            MappingsEncoder::LinesOnly(e) => e.written(),
        }
    }

    /// Whether `mapping` can be fed next (the lines-only encoder cannot go
    /// back to an earlier line).
    pub open spec fn accepts(&self, mapping: Mapping) -> bool {
        match self {
            MappingsEncoder::Full(e) => true,
            MappingsEncoder::LinesOnly(e) => lines_accepts(e.state(), mapping),
        }
    }

    /// Whether the text written so far is all ASCII.
    pub open spec fn wf(&self) -> bool {
        is_ascii_bytes(self.written())
    }

    /// Feeds one mapping.
    pub fn encode(&mut self, mapping: &Mapping)
        requires
            old(self).accepts(*mapping),
            old(self).wf(),
        ensures
            final(self).wf(),
            match (*old(self), *final(self)) {
                (MappingsEncoder::Full(a), MappingsEncoder::Full(b)) => b.state() == full_step(
                    a.state(),
                    *mapping,
                ).0 && b.written() == a.written() + full_step(a.state(), *mapping).1,
                (MappingsEncoder::LinesOnly(a), MappingsEncoder::LinesOnly(b)) => b.state()
                    == lines_step(a.state(), *mapping).0 && b.written() == a.written() + lines_step(
                    a.state(),
                    *mapping,
                ).1,
                _ => false,
            },
    {
        match self {
            MappingsEncoder::Full(e) => {
                proof {
                    lemma_full_step_ascii(e.state(), *mapping);
                    lemma_concat_ascii(e.written(), full_step(e.state(), *mapping).1);
                }
                e.encode(mapping);
            },
            MappingsEncoder::LinesOnly(e) => {
                proof {
                    lemma_lines_step_ascii(e.state(), *mapping);
                    lemma_concat_ascii(e.written(), lines_step(e.state(), *mapping).1);
                }
                e.encode(mapping);
            },
        }
    }

    /// The text written, as a string.
    pub fn drain(self) -> (res: String)
        requires
            self.wf(),
        ensures
            res@ == ascii_chars(self.written()),
    {
        match self {
            MappingsEncoder::Full(e) => e.drain(),
            MappingsEncoder::LinesOnly(e) => e.drain(),
        }
    }
}

/// A fresh encoder: with columns when `columns` is set, lines-only otherwise.
pub fn create_encoder(columns: bool) -> (res: MappingsEncoder)
    ensures
        res.wf(),
        columns ==> (res matches MappingsEncoder::Full(e) && e.state() == full_initial()
            && e.written() == Seq::<u8>::empty()),
        !columns ==> (res matches MappingsEncoder::LinesOnly(e) && e.state() == lines_initial()
            && e.written() == Seq::<u8>::empty()),
{
    if columns {
        MappingsEncoder::Full(FullMappingsEncoder::new())
    } else {
        MappingsEncoder::LinesOnly(LinesOnlyMappingsEncoder::new())
    }
}

/// Feeding the encoders one mapping more: a caller that feeds mappings one
/// at a time from a fresh encoder holds, after each, the state and text of
/// the run over the mappings fed so far, and so drains the `mappings` text of
/// them all.
pub proof fn lemma_encoder_runs(ms: Seq<Mapping>, m: Mapping)
    ensures
        full_run(full_initial(), ms.push(m)) == (
            full_step(full_run(full_initial(), ms).0, m).0,
            full_run(full_initial(), ms).1 + full_step(full_run(full_initial(), ms).0, m).1,
        ),
        lines_run(lines_initial(), ms.push(m)) == (
            lines_step(lines_run(lines_initial(), ms).0, m).0,
            lines_run(lines_initial(), ms).1 + lines_step(lines_run(lines_initial(), ms).0, m).1,
        ),
        full_run(full_initial(), Seq::<Mapping>::empty()) == (full_initial(), Seq::<u8>::empty()),
        lines_run(lines_initial(), Seq::<Mapping>::empty()) == (lines_initial(), Seq::<u8>::empty()),
{
    assert(ms.push(m).drop_last() =~= ms);
}

} // verus!
