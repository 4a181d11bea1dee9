//! Decoding a `mappings` text that an encoder wrote gives back what it
//! wrote: with columns, the mappings themselves; lines only, their lines,
//! sources and original lines.  The same holds of the source map gathered
//! from a stream of chunks.
use vstd::prelude::*;

use crate::mapping::{
    full_initial, full_mappings, full_next, full_run, full_segment, full_separator, full_skips,
    lines_initial, lines_mappings, lines_run, lines_skips, lines_written, semicolons, FullState,
    LinesState, Mapping, OriginalLocation,
};
use crate::source_map::{
    decode_initial, decode_run, decode_step, decoded, find_byte, lemma_find_byte, lemma_segments_one_line,
    line_segments, segment_ok, segments_in_lines, segments_of, segments_ok, split_on,
    DecodeState,
};
use crate::helpers::{chunk_mappings, map_of_model, map_of_stream_text};
use crate::source_map::SourceMap;
use crate::stream::StreamModel;
use crate::vlq::{b64_char, decode_spec, lemma_vlq_roundtrip, vlq, vlq_digits, vlq_seq, zigzag};

verus! {

/// Whether no byte of `b` is `c`.
pub open spec fn free_of(b: Seq<u8>, c: u8) -> bool {
    forall|i: int| 0 <= i < b.len() ==> #[trigger] b[i] != c
}

/// `k` empty lines.
pub open spec fn empties(k: int) -> Seq<Seq<u8>> {
    Seq::new(k as nat, |i: int| Seq::<u8>::empty())
}

proof fn lemma_split_free(b: Seq<u8>, c: u8)
    requires
        free_of(b, c),
    ensures
        split_on(b, c) == seq![b],
{
    lemma_find_byte(b, c);
    if find_byte(b, c) >= 0 {
        assert(b[find_byte(b, c)] == c);
    }
}

/// Cutting at a separator between two texts cuts each of them.
proof fn lemma_split_concat_sep(a: Seq<u8>, c: u8, b: Seq<u8>)
    ensures
        split_on(a + seq![c] + b, c) == split_on(a, c) + split_on(b, c),
    decreases a.len(),
{
    let s = a + seq![c] + b;
    lemma_find_byte(a, c);
    lemma_find_byte(s, c);
    let p = find_byte(a, c);
    let q = find_byte(s, c);
    if p < 0 {
        assert(s[a.len() as int] == c);
        assert(q == a.len()) by {
            if q < 0 {
                assert(s[a.len() as int] != c);
            } else if q < a.len() {
                assert(s[q] == a[q]);
            }
        }
        lemma_split_free(a, c);
        assert(s.take(q) =~= a);
        assert(s.skip(q + 1) =~= b);
    } else {
        assert(q == p) by {
            assert(s[p] == a[p]);
            if q < 0 {
                assert(s[p] != c);
            } else if q < p {
                assert(s[q] == a[q]);
            }
        }
        assert(s.take(q) =~= a.take(p));
        assert(s.skip(q + 1) =~= a.skip(p + 1) + seq![c] + b);
        lemma_split_concat_sep(a.skip(p + 1), c, b);
        assert(split_on(a, c) == seq![a.take(p)] + split_on(a.skip(p + 1), c));
        assert(split_on(s, c) == seq![s.take(q)] + split_on(s.skip(q + 1), c));
        assert(seq![a.take(p)] + (split_on(a.skip(p + 1), c) + split_on(b, c)) =~= seq![a.take(p)]
            + split_on(a.skip(p + 1), c) + split_on(b, c));
    }
}

/// Text without a separator, added at the end, lengthens the last piece.
proof fn lemma_split_append_free(a: Seq<u8>, x: Seq<u8>, c: u8)
    requires
        free_of(x, c),
    ensures
        split_on(a, c).len() >= 1,
        split_on(a + x, c) == split_on(a, c).drop_last().push(split_on(a, c).last() + x),
    decreases a.len(),
{
    let s = a + x;
    lemma_find_byte(a, c);
    lemma_find_byte(s, c);
    let p = find_byte(a, c);
    let q = find_byte(s, c);
    if p < 0 {
        assert(free_of(s, c)) by {
            assert forall|i: int| 0 <= i < s.len() implies #[trigger] s[i] != c by {
                if i >= a.len() {
                    assert(s[i] == x[i - a.len()]);
                }
            }
        }
        lemma_split_free(a, c);
        lemma_split_free(s, c);
        assert(seq![a].drop_last().push(a + x) =~= seq![a + x]);
    } else {
        assert(q == p) by {
            assert(s[p] == a[p]);
            if q < 0 {
                assert(s[p] != c);
            } else if q < p {
                assert(s[q] == a[q]);
            }
        }
        assert(s.take(q) =~= a.take(p));
        assert(s.skip(q + 1) =~= a.skip(p + 1) + x);
        lemma_split_append_free(a.skip(p + 1), x, c);
        let r = split_on(a.skip(p + 1), c);
        assert(split_on(a, c) == seq![a.take(p)] + r);
        assert(split_on(s, c) == seq![s.take(q)] + split_on(s.skip(q + 1), c));
        assert((seq![a.take(p)] + r).drop_last().push((seq![a.take(p)] + r).last() + x)
            =~= seq![a.take(p)] + r.drop_last().push(r.last() + x));
    }
}

/// Semicolons and then a line: as many lines as semicolons, the ones in
/// between empty.
proof fn lemma_split_semicolons(t: Seq<u8>, n: int, x: Seq<u8>)
    requires
        n >= 1,
        free_of(x, 59u8),
    ensures
        split_on(t + semicolons(n) + x, 59u8) == split_on(t, 59u8) + empties(n - 1) + seq![x],
    decreases n,
{
    lemma_split_free(x, 59u8);
    if n == 1 {
        assert(semicolons(1) =~= seq![59u8]);
        lemma_split_concat_sep(t, 59u8, x);
        assert(empties(0) =~= Seq::<Seq<u8>>::empty());
        assert(split_on(t, 59u8) + empties(0) =~= split_on(t, 59u8));
    } else {
        let t1 = t + seq![59u8];
        assert(t + semicolons(n) + x =~= t1 + semicolons(n - 1) + x);
        lemma_split_semicolons(t1, n - 1, x);
        lemma_split_concat_sep(t, 59u8, Seq::<u8>::empty());
        assert(t + seq![59u8] + Seq::<u8>::empty() =~= t1);
        lemma_split_free(Seq::<u8>::empty(), 59u8);
        assert(seq![Seq::<u8>::empty()] + empties(n - 2) =~= empties(n - 1));
        assert(split_on(t, 59u8) + seq![Seq::<u8>::empty()] + empties(n - 2) + seq![x]
            =~= split_on(t, 59u8) + empties(n - 1) + seq![x]);
    }
}

/// The segments of lines one after another.
proof fn lemma_segments_append(l1: Seq<Seq<u8>>, l2: Seq<Seq<u8>>, g: int)
    ensures
        segments_in_lines(l1 + l2, g) == segments_in_lines(l1, g) + segments_in_lines(
            l2,
            g + l1.len(),
        ),
    decreases l1.len(),
{
    if l1.len() == 0 {
        assert(l1 + l2 =~= l2);
    } else {
        lemma_segments_append(l1.drop_first(), l2, g + 1);
        assert((l1 + l2).drop_first() =~= l1.drop_first() + l2);
        assert((l1 + l2)[0] == l1[0]);
    }
}

proof fn lemma_segments_empties(k: int, g: int)
    requires
        k >= 0,
    ensures
        segments_in_lines(empties(k), g) == Seq::<(int, Seq<u8>)>::empty(),
    decreases k,
{
    if k > 0 {
        assert(empties(k).drop_first() =~= empties(k - 1));
        lemma_segments_empties(k - 1, g + 1);
    }
}

/// A line holding one more segment after a comma.
proof fn lemma_line_segments_push(l: Seq<u8>, seg: Seq<u8>, g: int)
    requires
        l.len() > 0,
        free_of(seg, 44u8),
    ensures
        line_segments(l + seq![44u8] + seg, g) == line_segments(l, g).push((g, seg)),
{
    lemma_split_concat_sep(l, 44u8, seg);
    lemma_split_free(seg, 44u8);
    let a = split_on(l, 44u8);
    assert((a + seq![seg]).map_values(|p: Seq<u8>| (g, p)) =~= a.map_values(|p: Seq<u8>| (g, p)).push(
        (g, seg),
    ));
}

/// A line of one segment.
proof fn lemma_line_segments_one(seg: Seq<u8>, g: int)
    requires
        seg.len() > 0,
        free_of(seg, 44u8),
    ensures
        line_segments(seg, g) == seq![(g, seg)],
{
    lemma_split_free(seg, 44u8);
    assert(seq![seg].map_values(|p: Seq<u8>| (g, p)) =~= seq![(g, seg)]);
}

/// Base64 digits are neither commas nor semicolons.
proof fn lemma_vlq_digits_free(n: nat)
    ensures
        vlq_digits(n).len() >= 1,
        free_of(vlq_digits(n), 44u8),
        free_of(vlq_digits(n), 59u8),
    decreases n,
{
    if n >= 32 {
        lemma_vlq_digits_free(n / 32);
        let d = seq![b64_char(((n % 32) + 32) as int)];
        assert(vlq_digits(n) == d + vlq_digits(n / 32));
        assert forall|i: int| 0 <= i < vlq_digits(n).len() implies #[trigger] vlq_digits(n)[i]
            != 44u8 && vlq_digits(n)[i] != 59u8 by {
            if i > 0 {
                assert(vlq_digits(n)[i] == vlq_digits(n / 32)[i - 1]);
            }
        }
    }
}

proof fn lemma_free_concat(a: Seq<u8>, b: Seq<u8>, c: u8)
    requires
        free_of(a, c),
        free_of(b, c),
    ensures
        free_of(a + b, c),
{
    assert forall|i: int| 0 <= i < (a + b).len() implies #[trigger] (a + b)[i] != c by {
        if i >= a.len() {
            assert((a + b)[i] == b[i - a.len()]);
        }
    }
}

/// The numbers of the segment written for `m` from state `st`: the column,
/// then, for a mapping to an original, source, line and column, then the
/// name, if any, each as a delta to the last value written.
pub open spec fn full_numbers(st: FullState, m: Mapping) -> Seq<i64> {
    let column_base = if st.current_line < m.generated_line { 0 } else { st.current_column };
    let c = seq![(m.generated_column - column_base) as i64];
    match m.original {
        Some(o) => {
            let d = c.push((o.source_index - st.current_source_index) as i64).push(
                (o.original_line - st.current_original_line) as i64,
            ).push((o.original_column - st.current_original_column) as i64);
            match o.name_index {
                Some(n) => d.push((n - st.current_name_index) as i64),
                None => d,
            }
        },
        None => c,
    }
}

proof fn lemma_vlq_free(x: int)
    ensures
        vlq(x).len() >= 1,
        free_of(vlq(x), 44u8),
        free_of(vlq(x), 59u8),
{
    lemma_vlq_digits_free(zigzag(x));
}

/// A segment is the VLQ text of its numbers, reads back as them, is not
/// empty and holds neither commas nor semicolons.
proof fn lemma_full_segment(st: FullState, m: Mapping)
    ensures
        full_segment(st, m) == vlq_seq(full_numbers(st, m)),
        decode_spec(full_segment(st, m), Seq::empty()) == (full_numbers(st, m), Option::<crate::error::Error>::None),
        full_segment(st, m).len() >= 1,
        free_of(full_segment(st, m), 44u8),
        free_of(full_segment(st, m), 59u8),
{
    let xs = full_numbers(st, m);
    let column_base = if st.current_line < m.generated_line { 0 } else { st.current_column };
    let c0 = m.generated_column - column_base;
    lemma_vlq_free(c0);
    assert(vlq_seq(seq![c0 as i64]) == vlq(c0)) by {
        assert(seq![c0 as i64].drop_last() =~= Seq::<i64>::empty());
        assert(vlq_seq(Seq::<i64>::empty()) == Seq::<u8>::empty());
        assert((c0 as i64) as int == c0);
        assert(Seq::<u8>::empty() + vlq(c0) =~= vlq(c0));
    }
    match m.original {
        Some(o) => {
            let a = o.source_index - st.current_source_index;
            let b = o.original_line - st.current_original_line;
            let d = o.original_column - st.current_original_column;
            lemma_vlq_free(a);
            lemma_vlq_free(b);
            lemma_vlq_free(d);
            let s1 = seq![c0 as i64];
            let s2 = s1.push(a as i64);
            let s3 = s2.push(b as i64);
            let s4 = s3.push(d as i64);
            assert(s2.drop_last() =~= s1);
            assert(s3.drop_last() =~= s2);
            assert(s4.drop_last() =~= s3);
            assert((a as i64) as int == a && (b as i64) as int == b && (d as i64) as int == d);
            assert(vlq_seq(s2) == vlq_seq(s1) + vlq(a));
            assert(vlq_seq(s3) == vlq_seq(s2) + vlq(b));
            assert(vlq_seq(s4) == vlq_seq(s3) + vlq(d));
            assert(vlq_seq(s4) == vlq(c0) + vlq(a) + vlq(b) + vlq(d));
            lemma_free_concat(vlq(c0), vlq(a), 44u8);
            lemma_free_concat(vlq(c0) + vlq(a), vlq(b), 44u8);
            lemma_free_concat(vlq(c0) + vlq(a) + vlq(b), vlq(d), 44u8);
            lemma_free_concat(vlq(c0), vlq(a), 59u8);
            lemma_free_concat(vlq(c0) + vlq(a), vlq(b), 59u8);
            lemma_free_concat(vlq(c0) + vlq(a) + vlq(b), vlq(d), 59u8);
            match o.name_index {
                Some(n) => {
                    let e = n - st.current_name_index;
                    lemma_vlq_free(e);
                    let s5 = s4.push(e as i64);
                    assert(s5.drop_last() =~= s4);
                    assert((e as i64) as int == e);
                    assert(vlq_seq(s5) == vlq_seq(s4) + vlq(e));
                    lemma_free_concat(vlq(c0) + vlq(a) + vlq(b) + vlq(d), vlq(e), 44u8);
                    lemma_free_concat(vlq(c0) + vlq(a) + vlq(b) + vlq(d), vlq(e), 59u8);
                    assert(full_segment(st, m) =~= vlq_seq(s5));
                },
                None => {
                    assert(full_segment(st, m) =~= vlq_seq(s4));
                },
            }
        },
        None => {
            assert(full_segment(st, m) =~= vlq(c0));
        },
    }
    lemma_vlq_roundtrip(xs);
}

/// Whether mappings lie on lines from 1, in order of line.
pub open spec fn lines_ordered(ms: Seq<Mapping>) -> bool {
    &&& forall|i: int| 0 <= i < ms.len() ==> #[trigger] ms[i].generated_line >= 1
    &&& forall|i: int, j: int|
        0 <= i <= j < ms.len() ==> #[trigger] ms[i].generated_line <= #[trigger] ms[j].generated_line
}

/// The mappings that the encoder with columns writes, in order: those it
/// does not skip.
pub open spec fn full_written(ms: Seq<Mapping>) -> Seq<Mapping>
    decreases ms.len(),
{
    if ms.len() == 0 {
        seq![]
    } else {
        let st = full_run(full_initial(), ms.drop_last()).0;
        if full_skips(st, ms.last()) {
            full_written(ms.drop_last())
        } else {
            full_written(ms.drop_last()).push(ms.last())
        }
    }
}

/// The segments that the encoder with columns writes, each with its line.
spec fn full_segments(ms: Seq<Mapping>) -> Seq<(int, Seq<u8>)>
    decreases ms.len(),
{
    if ms.len() == 0 {
        seq![]
    } else {
        let st = full_run(full_initial(), ms.drop_last()).0;
        if full_skips(st, ms.last()) {
            full_segments(ms.drop_last())
        } else {
            full_segments(ms.drop_last()).push(
                (ms.last().generated_line as int, full_segment(st, ms.last())),
            )
        }
    }
}

proof fn lemma_ordered_prefix(ms: Seq<Mapping>)
    requires
        lines_ordered(ms),
        ms.len() > 0,
    ensures
        lines_ordered(ms.drop_last()),
{
    assert forall|i: int, j: int| 0 <= i <= j < ms.drop_last().len() implies #[trigger] ms.drop_last()[i].generated_line
        <= #[trigger] ms.drop_last()[j].generated_line by {
        assert(ms[i].generated_line <= ms[j].generated_line);
    }
    assert forall|i: int| 0 <= i < ms.drop_last().len() implies #[trigger] ms.drop_last()[i].generated_line
        >= 1 by {
        assert(ms[i].generated_line >= 1);
    }
}

/// The text written for mappings in order of line: its lines, cut at
/// semicolons, hold the segments written, each on the line of its mapping.
proof fn lemma_full_text_shape(ms: Seq<Mapping>)
    requires
        lines_ordered(ms),
    ensures
        ({
            let (e, t) = full_run(full_initial(), ms);
            &&& split_on(t, 59u8).len() == e.current_line
            &&& segments_in_lines(split_on(t, 59u8), 1) == full_segments(ms)
            &&& e.initial ==> t.len() == 0 && e == full_initial()
            &&& !e.initial ==> split_on(t, 59u8).last().len() > 0
            &&& e.current_line >= 1
            &&& ms.len() > 0 ==> e.current_line <= ms.last().generated_line
        }),
    decreases ms.len(),
{
    if ms.len() == 0 {
        lemma_split_free(Seq::<u8>::empty(), 59u8);
        lemma_segments_one_line(Seq::<u8>::empty(), 1);
    } else {
        let ms1 = ms.drop_last();
        lemma_ordered_prefix(ms);
        lemma_full_text_shape(ms1);
        let (e1, t1) = full_run(full_initial(), ms1);
        let m = ms.last();
        assert(e1.current_line <= m.generated_line) by {
            if ms1.len() > 0 {
                assert(ms[ms.len() - 2].generated_line <= ms[ms.len() - 1].generated_line);
            } else {
                assert(ms[ms.len() - 1].generated_line >= 1);
            }
        }
        let s1 = split_on(t1, 59u8);
        if full_skips(e1, m) {
            assert(t1 + Seq::<u8>::empty() =~= t1);
        } else {
            let e = full_next(e1, m);
            let sep = full_separator(e1, m);
            let seg = full_segment(e1, m);
            let t = t1 + (sep + seg);
            assert(full_run(full_initial(), ms) == (e, t));
            lemma_full_segment(e1, m);
            if e1.current_line < m.generated_line {
                let n = m.generated_line - e1.current_line;
                assert(t =~= t1 + semicolons(n) + seg);
                lemma_split_semicolons(t1, n, seg);
                lemma_segments_append(s1, empties(n - 1) + seq![seg], 1);
                lemma_segments_append(empties(n - 1), seq![seg], 1 + s1.len() as int);
                lemma_segments_empties(n - 1, 1 + s1.len() as int);
                lemma_segments_one_line(seg, 1 + s1.len() + n - 1);
                lemma_line_segments_one(seg, m.generated_line as int);
                assert(s1 + (empties(n - 1) + seq![seg]) =~= s1 + empties(n - 1) + seq![seg]);
                assert(Seq::<(int, Seq<u8>)>::empty() + seq![(m.generated_line as int, seg)] =~= seq![(m.generated_line as int, seg)]);
            } else if e1.initial {
                assert(t =~= seg);
                lemma_split_free(seg, 59u8);
                lemma_split_free(Seq::<u8>::empty(), 59u8);
                lemma_segments_one_line(Seq::<u8>::empty(), 1);
                lemma_segments_one_line(seg, 1);
                lemma_line_segments_one(seg, 1);
                assert(full_segments(ms1) =~= Seq::<(int, Seq<u8>)>::empty());
            } else {
                let x = seq![44u8] + seg;
                assert(free_of(x, 59u8)) by {
                    assert forall|i: int| 0 <= i < x.len() implies #[trigger] x[i] != 59u8 by {
                        if i > 0 {
                            assert(x[i] == seg[i - 1]);
                        }
                    }
                }
                assert(t =~= t1 + x);
                lemma_split_append_free(t1, x, 59u8);
                let pre = s1.drop_last();
                let last = s1.last();
                assert(s1 =~= pre + seq![last]);
                lemma_segments_append(pre, seq![last], 1);
                lemma_segments_append(pre, seq![last + x], 1);
                lemma_segments_one_line(last, 1 + pre.len() as int);
                lemma_segments_one_line(last + x, 1 + pre.len() as int);
                assert(last + x =~= last + seq![44u8] + seg);
                lemma_line_segments_push(last, seg, 1 + pre.len() as int);
                assert(pre.push(last + x) =~= pre + seq![last + x]);
            }
        }
    }
}

/// Whether the decoder, after reading the segments written so far, holds
/// the values that the encoder last wrote.
spec fn states_match(d: DecodeState, e: FullState) -> bool {
    &&& d.source_index == e.current_source_index
    &&& d.original_line == e.current_original_line
    &&& d.original_column == e.current_original_column
    &&& d.name_index == e.current_name_index
    &&& if e.initial {
        d.generated_line == 0 && e.current_line == 1 && e.current_column == 0
    } else {
        d.generated_line == e.current_line && d.generated_column == e.current_column
    }
}

/// Reading the segments written for mappings in order of line gives back
/// the mappings written.
proof fn lemma_full_decode(ms: Seq<Mapping>)
    requires
        lines_ordered(ms),
    ensures
        states_match(decode_run(decode_initial(), full_segments(ms)).0, full_run(full_initial(), ms).0),
        decode_run(decode_initial(), full_segments(ms)).1 == full_written(ms),
        segments_ok(full_segments(ms)),
    decreases ms.len(),
{
    if ms.len() > 0 {
        let ms1 = ms.drop_last();
        lemma_ordered_prefix(ms);
        lemma_full_decode(ms1);
        lemma_full_text_shape(ms1);
        let e1 = full_run(full_initial(), ms1).0;
        let w1 = full_segments(ms1);
        let d1 = decode_run(decode_initial(), w1).0;
        let m = ms.last();
        assert(e1.current_line <= m.generated_line && m.generated_line >= 1) by {
            assert(ms[ms.len() - 1].generated_line >= 1);
            if ms1.len() > 0 {
                assert(ms[ms.len() - 2].generated_line <= ms[ms.len() - 1].generated_line);
            }
        }
        if !full_skips(e1, m) {
            let seg = full_segment(e1, m);
            let w = full_segments(ms);
            lemma_full_segment(e1, m);
            assert(w == w1.push((m.generated_line as int, seg)));
            assert(w.drop_last() =~= w1);
            let nums = decode_spec(seg, Seq::empty()).0;
            assert(nums == full_numbers(e1, m));
            let (d2, mm) = decode_step(d1, m.generated_line as int, seg);
            assert(mm == m);
            assert(states_match(d2, full_next(e1, m)));
            assert forall|i: int| 0 <= i < w.len() implies #[trigger] segment_ok(w[i].1) by {
                if i < w1.len() {
                    assert(w[i] == w1[i]);
                }
            }
        }
    }
}

/// Decoding the `mappings` text that the encoder with columns writes for
/// mappings on lines from 1, in order of line, reads every segment and gives
/// back the mappings it wrote (those it does not skip), in order.
pub proof fn lemma_full_mappings_roundtrip(ms: Seq<Mapping>)
    requires
        lines_ordered(ms),
    ensures
        segments_ok(segments_of(full_mappings(ms))),
        decoded(full_mappings(ms)) == full_written(ms),
{
    lemma_full_text_shape(ms);
    lemma_full_decode(ms);
}

/// What the lines-only encoder keeps of a mapping it writes: its line, at
/// column 0, mapped to its source and original line at column 0, without a
/// name.
pub open spec fn lines_kept(m: Mapping) -> Mapping {
    let o = m.original.unwrap();
    Mapping {
        generated_line: m.generated_line,
        generated_column: 0,
        original: Some(
            OriginalLocation {
                source_index: o.source_index,
                original_line: o.original_line,
                original_column: 0,
                name_index: None,
            },
        ),
    }
}

/// What the lines-only encoder writes of mappings, in order: for each
/// mapping it does not skip, what it keeps of it.
pub open spec fn lines_written_mappings(ms: Seq<Mapping>) -> Seq<Mapping>
    decreases ms.len(),
{
    if ms.len() == 0 {
        seq![]
    } else {
        let st = lines_run(lines_initial(), ms.drop_last()).0;
        if lines_skips(st, ms.last()) {
            lines_written_mappings(ms.drop_last())
        } else {
            lines_written_mappings(ms.drop_last()).push(lines_kept(ms.last()))
        }
    }
}

/// The segment the lines-only encoder writes for `m`.
spec fn lines_segment(st: LinesState, m: Mapping) -> Seq<u8> {
    let o = m.original.unwrap();
    seq![b64_char(0)] + vlq(o.source_index - st.current_source_index) + vlq(
        o.original_line - st.current_original_line,
    ) + seq![b64_char(0)]
}

/// Its numbers: column 0, source and line as deltas, original column 0.
spec fn lines_numbers(st: LinesState, m: Mapping) -> Seq<i64> {
    let o = m.original.unwrap();
    seq![0i64, (o.source_index - st.current_source_index) as i64, (o.original_line - st.current_original_line) as i64, 0i64]
}

spec fn lines_segments(ms: Seq<Mapping>) -> Seq<(int, Seq<u8>)>
    decreases ms.len(),
{
    if ms.len() == 0 {
        seq![]
    } else {
        let st = lines_run(lines_initial(), ms.drop_last()).0;
        if lines_skips(st, ms.last()) {
            lines_segments(ms.drop_last())
        } else {
            lines_segments(ms.drop_last()).push(
                (ms.last().generated_line as int, lines_segment(st, ms.last())),
            )
        }
    }
}

proof fn lemma_lines_segment(st: LinesState, m: Mapping)
    requires
        m.original is Some,
    ensures
        lines_segment(st, m) == vlq_seq(lines_numbers(st, m)),
        decode_spec(lines_segment(st, m), Seq::empty()) == (lines_numbers(st, m), Option::<crate::error::Error>::None),
        lines_segment(st, m).len() >= 1,
        free_of(lines_segment(st, m), 44u8),
        free_of(lines_segment(st, m), 59u8),
        lines_written(st, m) == semicolons(m.generated_line - st.current_line) + lines_segment(st, m),
{
    let o = m.original.unwrap();
    let a = o.source_index - st.current_source_index;
    let b = o.original_line - st.current_original_line;
    lemma_vlq_free(0);
    lemma_vlq_free(a);
    lemma_vlq_free(b);
    assert(vlq(0) =~= seq![b64_char(0)]);
    let s1 = seq![0i64];
    let s2 = s1.push(a as i64);
    let s3 = s2.push(b as i64);
    let s4 = s3.push(0i64);
    assert(s4 =~= lines_numbers(st, m));
    assert(s1.drop_last() =~= Seq::<i64>::empty());
    assert(s2.drop_last() =~= s1);
    assert(s3.drop_last() =~= s2);
    assert(s4.drop_last() =~= s3);
    assert(vlq_seq(Seq::<i64>::empty()) == Seq::<u8>::empty());
    assert((a as i64) as int == a && (b as i64) as int == b);
    assert(vlq_seq(s1) =~= vlq(0));
    assert(vlq_seq(s2) == vlq_seq(s1) + vlq(a));
    assert(vlq_seq(s3) == vlq_seq(s2) + vlq(b));
    assert(vlq_seq(s4) == vlq_seq(s3) + vlq(0));
    assert(lines_segment(st, m) =~= vlq_seq(s4));
    lemma_free_concat(vlq(0), vlq(a), 44u8);
    lemma_free_concat(vlq(0) + vlq(a), vlq(b), 44u8);
    lemma_free_concat(vlq(0) + vlq(a) + vlq(b), vlq(0), 44u8);
    lemma_free_concat(vlq(0), vlq(a), 59u8);
    lemma_free_concat(vlq(0) + vlq(a), vlq(b), 59u8);
    lemma_free_concat(vlq(0) + vlq(a) + vlq(b), vlq(0), 59u8);
    assert(lines_written(st, m) =~= semicolons(m.generated_line - st.current_line) + lines_segment(st, m));
    lemma_vlq_roundtrip(s4);
}

proof fn lemma_lines_text_shape(ms: Seq<Mapping>)
    requires
        lines_ordered(ms),
    ensures
        ({
            let (e, t) = lines_run(lines_initial(), ms);
            &&& split_on(t, 59u8).len() == e.current_line
            &&& segments_in_lines(split_on(t, 59u8), 1) == lines_segments(ms)
            &&& e.last_written_line == 0 ==> t.len() == 0 && e == lines_initial()
            &&& e.last_written_line != 0 ==> e.last_written_line == e.current_line
            &&& e.current_line >= 1
            &&& ms.len() > 0 ==> e.current_line <= ms.last().generated_line
        }),
    decreases ms.len(),
{
    if ms.len() == 0 {
        lemma_split_free(Seq::<u8>::empty(), 59u8);
        lemma_segments_one_line(Seq::<u8>::empty(), 1);
    } else {
        let ms1 = ms.drop_last();
        lemma_ordered_prefix(ms);
        lemma_lines_text_shape(ms1);
        let (e1, t1) = lines_run(lines_initial(), ms1);
        let m = ms.last();
        assert(e1.current_line <= m.generated_line && m.generated_line >= 1) by {
            assert(ms[ms.len() - 1].generated_line >= 1);
            if ms1.len() > 0 {
                assert(ms[ms.len() - 2].generated_line <= ms[ms.len() - 1].generated_line);
            }
        }
        let s1 = split_on(t1, 59u8);
        if lines_skips(e1, m) {
            assert(t1 + Seq::<u8>::empty() =~= t1);
        } else {
            let seg = lines_segment(e1, m);
            lemma_lines_segment(e1, m);
            let t = t1 + lines_written(e1, m);
            if e1.current_line < m.generated_line {
                let n = m.generated_line - e1.current_line;
                assert(t =~= t1 + semicolons(n) + seg);
                lemma_split_semicolons(t1, n, seg);
                lemma_segments_append(s1, empties(n - 1) + seq![seg], 1);
                lemma_segments_append(empties(n - 1), seq![seg], 1 + s1.len() as int);
                lemma_segments_empties(n - 1, 1 + s1.len() as int);
                lemma_segments_one_line(seg, 1 + s1.len() + n - 1);
                lemma_line_segments_one(seg, m.generated_line as int);
                assert(s1 + (empties(n - 1) + seq![seg]) =~= s1 + empties(n - 1) + seq![seg]);
                assert(Seq::<(int, Seq<u8>)>::empty() + seq![(m.generated_line as int, seg)] =~= seq![(m.generated_line as int, seg)]);
            } else {
                assert(e1.last_written_line == 0);
                assert(semicolons(0) =~= Seq::<u8>::empty());
                assert(t =~= seg);
                lemma_split_free(seg, 59u8);
                lemma_split_free(Seq::<u8>::empty(), 59u8);
                lemma_segments_one_line(Seq::<u8>::empty(), 1);
                lemma_segments_one_line(seg, 1);
                lemma_line_segments_one(seg, 1);
                assert(lines_segments(ms1) =~= Seq::<(int, Seq<u8>)>::empty());
            }
        }
    }
}

spec fn lines_states_match(d: DecodeState, e: LinesState) -> bool {
    &&& d.source_index == e.current_source_index
    &&& d.original_line == e.current_original_line
    &&& d.original_column == 0
    &&& if e.last_written_line == 0 {
        d.generated_line == 0
    } else {
        d.generated_line == e.current_line
    }
}

proof fn lemma_lines_decode(ms: Seq<Mapping>)
    requires
        lines_ordered(ms),
    ensures
        lines_states_match(decode_run(decode_initial(), lines_segments(ms)).0, lines_run(lines_initial(), ms).0),
        decode_run(decode_initial(), lines_segments(ms)).1 == lines_written_mappings(ms),
        segments_ok(lines_segments(ms)),
    decreases ms.len(),
{
    if ms.len() > 0 {
        let ms1 = ms.drop_last();
        lemma_ordered_prefix(ms);
        lemma_lines_decode(ms1);
        lemma_lines_text_shape(ms1);
        let e1 = lines_run(lines_initial(), ms1).0;
        let w1 = lines_segments(ms1);
        let d1 = decode_run(decode_initial(), w1).0;
        let m = ms.last();
        assert(e1.current_line <= m.generated_line && m.generated_line >= 1) by {
            assert(ms[ms.len() - 1].generated_line >= 1);
            if ms1.len() > 0 {
                assert(ms[ms.len() - 2].generated_line <= ms[ms.len() - 1].generated_line);
            }
        }
        if !lines_skips(e1, m) {
            let seg = lines_segment(e1, m);
            let w = lines_segments(ms);
            lemma_lines_segment(e1, m);
            assert(w == w1.push((m.generated_line as int, seg)));
            assert(w.drop_last() =~= w1);
            let nums = decode_spec(seg, Seq::empty()).0;
            assert(nums == lines_numbers(e1, m));
            let (d2, mm) = decode_step(d1, m.generated_line as int, seg);
            assert(d1.generated_line != m.generated_line);
            assert(mm == lines_kept(m));
            assert forall|i: int| 0 <= i < w.len() implies #[trigger] segment_ok(w[i].1) by {
                if i < w1.len() {
                    assert(w[i] == w1[i]);
                }
            }
        }
    }
}

/// Decoding the lines-only `mappings` text of mappings on lines from 1, in
/// order of line, reads every segment and gives back what the encoder kept
/// of each mapping it wrote: its line, its source and its original line.
pub proof fn lemma_lines_mappings_roundtrip(ms: Seq<Mapping>)
    requires
        lines_ordered(ms),
    ensures
        segments_ok(segments_of(lines_mappings(ms))),
        decoded(lines_mappings(ms)) == lines_written_mappings(ms),
{
    lemma_lines_text_shape(ms);
    lemma_lines_decode(ms);
}

/// The source map gathered from a stream, decoded, gives back the mappings
/// of the stream's chunks that the encoder writes (with columns, the
/// mappings themselves; lines only, what it keeps of them), when they lie on
/// lines from 1 in order of line.  When nothing is gathered, nothing would
/// have been written.
pub proof fn lemma_map_of_stream_roundtrip(res: Option<SourceMap>, m: StreamModel, columns: bool)
    requires
        map_of_model(res, m, columns),
        lines_ordered(chunk_mappings(m.chunks)),
    ensures
        res matches Some(sm) ==> decoded(sm.mappings_bytes()) == if columns {
            full_written(chunk_mappings(m.chunks))
        } else {
            lines_written_mappings(chunk_mappings(m.chunks))
        },
        res is None ==> (if columns {
            full_written(chunk_mappings(m.chunks))
        } else {
            lines_written_mappings(chunk_mappings(m.chunks))
        }).len() == 0,
{
    let ms = chunk_mappings(m.chunks);
    let text = map_of_stream_text(m.chunks, columns);
    if columns {
        lemma_full_mappings_roundtrip(ms);
        crate::encoder::lemma_full_run_ascii(full_initial(), ms);
    } else {
        lemma_lines_mappings_roundtrip(ms);
        crate::encoder::lemma_lines_run_ascii(lines_initial(), ms);
    }
    crate::text::lemma_ascii_chars_encode(text);
    if res is None {
        assert(text =~= Seq::<u8>::empty());
        lemma_split_free(Seq::<u8>::empty(), 59u8);
        lemma_segments_one_line(Seq::<u8>::empty(), 1);
        assert(segments_of(text) =~= Seq::<(int, Seq<u8>)>::empty());
        assert(decoded(text) =~= Seq::<Mapping>::empty());
    }
}

/// Whether the encoder with columns writes every one of `ms`: each maps to an
/// original, and no mapping repeats, on the same line, the source, line and
/// column of the one before it with neither having a name.
pub open spec fn none_skipped(ms: Seq<Mapping>) -> bool {
    &&& forall|i: int| 0 <= i < ms.len() ==> (#[trigger] ms[i]).original is Some
    &&& forall|i: int|
        0 < i < ms.len() && ms[i - 1].generated_line == (#[trigger] ms[i]).generated_line ==> {
            let p = ms[i - 1].original.unwrap();
            let o = ms[i].original.unwrap();
            !(p.source_index == o.source_index && p.original_line == o.original_line
                && p.original_column == o.original_column && p.name_index is None
                && o.name_index is None)
        }
}

proof fn lemma_full_writes_all(ms: Seq<Mapping>)
    requires
        lines_ordered(ms),
        none_skipped(ms),
    ensures
        full_written(ms) == ms,
        ms.len() > 0 ==> {
            let e = full_run(full_initial(), ms).0;
            let o = ms.last().original.unwrap();
            &&& e.active_mapping
            &&& e.current_line == ms.last().generated_line
            &&& e.current_source_index == o.source_index
            &&& e.current_original_line == o.original_line
            &&& e.current_original_column == o.original_column
            &&& e.active_name == o.name_index is Some
        },
        ms.len() == 0 ==> !full_run(full_initial(), ms).0.active_mapping,
    decreases ms.len(),
{
    if ms.len() > 0 {
        let ms1 = ms.drop_last();
        lemma_ordered_prefix(ms);
        assert(none_skipped(ms1)) by {
            assert forall|i: int| 0 <= i < ms1.len() implies (#[trigger] ms1[i]).original is Some by {
                assert(ms1[i] == ms[i]);
            }
            assert forall|i: int|
                0 < i < ms1.len() && ms1[i - 1].generated_line == (#[trigger] ms1[i]).generated_line implies {
                    let p = ms1[i - 1].original.unwrap();
                    let o = ms1[i].original.unwrap();
                    !(p.source_index == o.source_index && p.original_line == o.original_line
                        && p.original_column == o.original_column && p.name_index is None
                        && o.name_index is None)
                } by {
                assert(ms1[i] == ms[i] && ms1[i - 1] == ms[i - 1]);
            }
        }
        lemma_full_writes_all(ms1);
        lemma_full_text_shape(ms1);
        let e1 = full_run(full_initial(), ms1).0;
        let m = ms.last();
        assert(m.original is Some) by {
            assert(ms[ms.len() - 1].original is Some);
        }
        assert(m.generated_line >= 1 && e1.current_line <= m.generated_line) by {
            assert(ms[ms.len() - 1].generated_line >= 1);
            if ms1.len() > 0 {
                assert(ms[ms.len() - 2].generated_line <= ms[ms.len() - 1].generated_line);
            }
        }
        if ms1.len() > 0 {
            let i = ms.len() - 1;
            assert(ms[i - 1] == ms1.last());
            assert(ms[i] == m);
        }
        assert(!full_skips(e1, m));
    }
}

/// Decoding the `mappings` text that the encoder with columns writes gives
/// back all of `ms`, when they lie on lines from 1 in order of line, each
/// maps to an original, and none repeats the one before it on its line
/// without a name.
pub proof fn lemma_full_mappings_exact(ms: Seq<Mapping>)
    requires
        lines_ordered(ms),
        none_skipped(ms),
    ensures
        decoded(full_mappings(ms)) == ms,
{
    lemma_full_mappings_roundtrip(ms);
    lemma_full_writes_all(ms);
}

/// Whether `ms[i]` is the first of `ms` with an original on its line.
pub open spec fn first_on_its_line(ms: Seq<Mapping>, i: int) -> bool {
    &&& ms[i].original is Some
    &&& forall|j: int| 0 <= j < i && #[trigger] ms[j].generated_line == ms[i].generated_line ==> ms[j].original is None
}

/// For each line, in order, what the lines-only encoder keeps of the first
/// mapping on it with an original.
pub open spec fn firsts_of_lines(ms: Seq<Mapping>) -> Seq<Mapping>
    decreases ms.len(),
{
    if ms.len() == 0 {
        seq![]
    } else if first_on_its_line(ms, ms.len() - 1) {
        firsts_of_lines(ms.drop_last()).push(lines_kept(ms.last()))
    } else {
        firsts_of_lines(ms.drop_last())
    }
}

proof fn lemma_lines_firsts(ms: Seq<Mapping>)
    requires
        lines_ordered(ms),
    ensures
        lines_written_mappings(ms) == firsts_of_lines(ms),
        ({
            let e = lines_run(lines_initial(), ms).0;
            &&& e.last_written_line == 0 ==> forall|j: int| 0 <= j < ms.len() ==> (#[trigger] ms[j]).original is None
            &&& e.last_written_line != 0 ==> exists|j: int|
                0 <= j < ms.len() && (#[trigger] ms[j]).original is Some && ms[j].generated_line == e.last_written_line
            &&& forall|j: int| 0 <= j < ms.len() && (#[trigger] ms[j]).original is Some ==> ms[j].generated_line <= e.last_written_line
        }),
    decreases ms.len(),
{
    if ms.len() > 0 {
        let n = ms.len() - 1;
        let ms1 = ms.drop_last();
        lemma_ordered_prefix(ms);
        lemma_lines_firsts(ms1);
        let e1 = lines_run(lines_initial(), ms1).0;
        let m = ms.last();
        assert(m == ms[n]);
        assert(m.generated_line >= 1);
        assert forall|j: int| 0 <= j < n implies #[trigger] ms1[j] == ms[j] by {}
        assert(e1.last_written_line == 0 || e1.last_written_line <= m.generated_line) by {
            if e1.last_written_line != 0 {
                let j = choose|j: int|
                    0 <= j < ms1.len() && (#[trigger] ms1[j]).original is Some && ms1[j].generated_line == e1.last_written_line;
                assert(ms[j].generated_line <= ms[n].generated_line);
            }
        }
        let earlier = exists|j: int| 0 <= j < n && #[trigger] ms[j].generated_line == m.generated_line && ms[j].original is Some;
        assert(earlier <==> e1.last_written_line == m.generated_line) by {
            if earlier {
                let j = choose|j: int| 0 <= j < n && #[trigger] ms[j].generated_line == m.generated_line && ms[j].original is Some;
                assert(ms1[j].original is Some);
                assert(ms1[j].generated_line <= e1.last_written_line);
            }
            if e1.last_written_line == m.generated_line {
                let j = choose|j: int|
                    0 <= j < ms1.len() && (#[trigger] ms1[j]).original is Some && ms1[j].generated_line == e1.last_written_line;
                assert(ms[j].generated_line == m.generated_line && ms[j].original is Some);
            }
        }
        assert(first_on_its_line(ms, n) <==> (m.original is Some && !earlier));
        let e = lines_run(lines_initial(), ms).0;
        assert forall|j: int| 0 <= j < ms.len() && (#[trigger] ms[j]).original is Some implies ms[j].generated_line <= e.last_written_line by {
            if j < n {
                assert(ms1[j].original is Some);
                assert(ms[j].generated_line <= ms[n].generated_line);
            }
        }
        if e.last_written_line != 0 {
            if lines_skips(e1, m) {
                let j = choose|j: int|
                    0 <= j < ms1.len() && (#[trigger] ms1[j]).original is Some && ms1[j].generated_line == e1.last_written_line;
                assert(ms[j] == ms1[j]);
            } else {
                assert(ms[n].original is Some);
            }
        } else {
            assert forall|j: int| 0 <= j < ms.len() implies (#[trigger] ms[j]).original is None by {
                if j < n {
                    assert(ms1[j].original is None);
                }
            }
        }
    }
}

/// Decoding the lines-only `mappings` text of mappings on lines from 1, in
/// order of line, gives, for each line in order that holds a mapping with an
/// original, what the encoder keeps of the first such mapping: the line at
/// column 0, its source and original line at column 0, without a name.
pub proof fn lemma_lines_mappings_firsts(ms: Seq<Mapping>)
    requires
        lines_ordered(ms),
    ensures
        decoded(lines_mappings(ms)) == firsts_of_lines(ms),
{
    lemma_lines_mappings_roundtrip(ms);
    lemma_lines_firsts(ms);
}

} // verus!
