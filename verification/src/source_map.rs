//! A source map held as plain data, and the decoding of its `mappings`.
use vstd::prelude::*;

use crate::mapping::{Mapping, OriginalLocation};
use crate::vlq::{decode, decode_spec};

verus! {

/// `memchr::memchr`: its documentation promises the index of the first
/// occurrence of `needle` in `haystack`, and `None` when there is none.
pub assume_specification[ memchr::memchr ](needle: u8, haystack: &[u8]) -> (res: Option<usize>)
    ensures
        res matches Some(i) ==> i < haystack@.len() && haystack@[i as int] == needle && forall|
            j: int,
        |
            0 <= j < i ==> haystack@[j] != needle,
        res is None ==> forall|j: int| 0 <= j < haystack@.len() ==> haystack@[j] != needle,
;

/// The position of the first `c` in `b`, `-1` if there is none.
pub open spec fn find_byte(b: Seq<u8>, c: u8) -> int
    decreases b.len(),
{
    if b.len() == 0 {
        -1
    } else if b[0] == c {
        0
    } else {
        let r = find_byte(b.drop_first(), c);
        if r < 0 {
            -1
        } else {
            r + 1
        }
    }
}

pub proof fn lemma_find_byte(b: Seq<u8>, c: u8)
    ensures
        -1 <= find_byte(b, c) < b.len(),
        find_byte(b, c) >= 0 ==> b[find_byte(b, c)] == c,
        forall|j: int|
            0 <= j < b.len() && (find_byte(b, c) < 0 || j < find_byte(b, c)) ==> b[j] != c,
    decreases b.len(),
{
    if b.len() > 0 && b[0] != c {
        lemma_find_byte(b.drop_first(), c);
        assert forall|j: int|
            0 <= j < b.len() && (find_byte(b, c) < 0 || j < find_byte(b, c)) implies b[j] != c by {
            if j > 0 {
                assert(b[j] == b.drop_first()[j - 1]);
            }
        }
    }
}

proof fn lemma_find_byte_unique(b: Seq<u8>, c: u8, i: int)
    requires
        0 <= i < b.len(),
        b[i] == c,
        forall|j: int| 0 <= j < i ==> b[j] != c,
    ensures
        find_byte(b, c) == i,
{
    lemma_find_byte(b, c);
}

/// `b` cut at every `c`: the pieces between them, empty ones included.
pub open spec fn split_on(b: Seq<u8>, c: u8) -> Seq<Seq<u8>>
    decreases b.len(),
{
    let p = find_byte(b, c);
    if p < 0 {
        seq![b]
    } else {
        proof {
            lemma_find_byte(b, c);
        }
        seq![b.take(p)] + split_on(b.skip(p + 1), c)
    }
}

/// The segments of lines of a `mappings` text, each with its line number,
/// the first of the lines being `first_line`.  An empty line has none; a
/// non-empty one has one segment per piece between commas.
pub open spec fn segments_in_lines(lines: Seq<Seq<u8>>, first_line: int) -> Seq<(int, Seq<u8>)>
    decreases lines.len(),
{
    if lines.len() == 0 {
        seq![]
    } else {
        (if lines[0].len() == 0 {
            seq![]
        } else {
            tag_line(split_on(lines[0], 44u8), first_line)
        }) + segments_in_lines(lines.drop_first(), first_line + 1)
    }
}

/// Pieces, each with the same line number.
pub open spec fn tag_line(pieces: Seq<Seq<u8>>, line: int) -> Seq<(int, Seq<u8>)> {
    pieces.map_values(|p: Seq<u8>| (line, p))
}

/// The segments of one line.
pub open spec fn line_segments(l: Seq<u8>, line: int) -> Seq<(int, Seq<u8>)> {
    if l.len() == 0 {
        seq![]
    } else {
        tag_line(split_on(l, 44u8), line)
    }
}

/// A text with no line break is one line.
pub proof fn lemma_segments_one_line(l: Seq<u8>, g: int)
    ensures
        segments_in_lines(seq![l], g) == line_segments(l, g),
{
    let e = seq![l];
    assert(e.drop_first() =~= Seq::<Seq<u8>>::empty());
    assert(segments_in_lines(Seq::<Seq<u8>>::empty(), g + 1) == Seq::<(int, Seq<u8>)>::empty());
    assert(segments_in_lines(e, g) =~= line_segments(l, g));
}

/// The segments of a `mappings` text, with their line numbers from 1.
pub open spec fn segments_of(b: Seq<u8>) -> Seq<(int, Seq<u8>)> {
    segments_in_lines(split_on(b, 59u8), 1)
}

/// Whether a segment decodes to 1, 4 or 5 numbers.
pub open spec fn segment_ok(seg: Seq<u8>) -> bool {
    let (nums, err) = decode_spec(seg, seq![]);
    err is None && (nums.len() == 1 || nums.len() == 4 || nums.len() == 5)
}

/// Whether all segments decode.
pub open spec fn segments_ok(segs: Seq<(int, Seq<u8>)>) -> bool {
    forall|i: int| 0 <= i < segs.len() ==> #[trigger] segment_ok(segs[i].1)
}

/// What a decoder remembers between segments: the last values read.
#[derive(Clone, Copy, Debug, PartialEq, Eq, Structural)]
pub struct DecodeState {
    pub generated_line: usize,
    pub generated_column: u32,
    pub source_index: u32,
    pub original_line: u32,
    pub original_column: u32,
    pub name_index: u32,
}

/// The state before the first segment.
pub open spec fn decode_initial() -> DecodeState {
    DecodeState {
        generated_line: 0,
        generated_column: 0,
        source_index: 0,
        original_line: 1,
        original_column: 0,
        name_index: 0,
    }
}

/// Decodes one segment of line `line`: each number is a delta to the last
/// value of its field (the generated column starts again at 0 on a new
/// line); sums are kept to 32 bits.
pub open spec fn decode_step(st: DecodeState, line: int, seg: Seq<u8>) -> (DecodeState, Mapping) {
    let nums = decode_spec(seg, seq![]).0;
    let base: int = if line == st.generated_line { st.generated_column as int } else { 0 };
    let gc = (base + nums[0]) as u32;
    if nums.len() > 1 {
        let si = (st.source_index + nums[1]) as u32;
        let ol = (st.original_line + nums[2]) as u32;
        let oc = (st.original_column + nums[3]) as u32;
        let ni = if nums.len() > 4 { (st.name_index + nums[4]) as u32 } else { st.name_index };
        (
            DecodeState {
                generated_line: line as usize,
                generated_column: gc,
                source_index: si,
                original_line: ol,
                original_column: oc,
                name_index: ni,
            },
            Mapping {
                generated_line: line as u32,
                generated_column: gc,
                original: Some(
                    OriginalLocation {
                        source_index: si,
                        original_line: ol,
                        original_column: oc,
                        name_index: if nums.len() > 4 { Some(ni) } else { None },
                    },
                ),
            },
        )
    } else {
        (
            DecodeState { generated_line: line as usize, generated_column: gc, ..st },
            Mapping { generated_line: line as u32, generated_column: gc, original: None },
        )
    }
}

/// Decodes segments one after another from `st`: the final state and the
/// mappings read.
pub open spec fn decode_run(st: DecodeState, segs: Seq<(int, Seq<u8>)>) -> (DecodeState, Seq<Mapping>)
    decreases segs.len(),
{
    if segs.len() == 0 {
        (st, seq![])
    } else {
        let (st1, ms) = decode_run(st, segs.drop_last());
        let (st2, m) = decode_step(st1, segs.last().0, segs.last().1);
        (st2, ms.push(m))
    }
}

/// The mappings that a `mappings` text decodes to.
pub open spec fn decoded(b: Seq<u8>) -> Seq<Mapping> {
    decode_run(decode_initial(), segments_of(b)).1
}

/// Whether every segment of a `mappings` text decodes to 1, 4 or 5 numbers.
pub open spec fn mappings_ok(b: Seq<u8>) -> bool {
    segments_ok(segments_of(b)) && b.len() < usize::MAX
}

/// A source map: the generated file's name, the encoded mappings, and the
/// sources, their contents and the names that the mappings refer to by index.
#[derive(Debug, Clone, PartialEq, Eq, Hash)]
pub struct SourceMap {
    file: Option<String>,
    mappings: String,
    sources: Vec<String>,
    sources_content: Vec<String>,
    names: Vec<String>,
}

impl SourceMap {
    pub closed spec fn spec_file(&self) -> Option<Seq<char>> {
        match self.file {
            Some(f) => Some(f@),
            None => None,
        }
    }

    /// The `mappings` text.
    pub closed spec fn spec_mappings(&self) -> Seq<char> {
        self.mappings@
    }

    /// The bytes of the `mappings` text.
    pub open spec fn mappings_bytes(&self) -> Seq<u8> {
        vstd::utf8::encode_utf8(self.spec_mappings())
    }

    pub closed spec fn spec_sources(&self) -> Seq<Seq<char>> {
        self.sources@.map_values(|s: String| s@)
    }

    pub closed spec fn spec_sources_content(&self) -> Seq<Seq<char>> {
        self.sources_content@.map_values(|s: String| s@)
    }

    pub closed spec fn spec_names(&self) -> Seq<Seq<char>> {
        self.names@.map_values(|s: String| s@)
    }

    /// A source map of the given parts.
    pub fn new(
        file: Option<String>,
        mappings: String,
        sources: Vec<String>,
        sources_content: Vec<String>,
        names: Vec<String>,
    ) -> (res: Self)
        ensures
            res.spec_file() == (match file {
                Some(f) => Some(f@),
                None => None::<Seq<char>>,
            }),
            res.spec_mappings() == mappings@,
            res.spec_sources() == sources@.map_values(|s: String| s@),
            res.spec_sources_content() == sources_content@.map_values(|s: String| s@),
            res.spec_names() == names@.map_values(|s: String| s@),
    {
        SourceMap { file, mappings, sources, sources_content, names }
    }

    /// The generated file's name.
    pub fn file(&self) -> (res: Option<&String>)
        ensures
            match res {
                Some(f) => self.spec_file() == Some(f@),
                None => self.spec_file() is None,
            },
    {
        self.file.as_ref()
    }

    /// The `mappings` text.
    pub fn mappings(&self) -> (res: &str)
        ensures
            res@ == self.spec_mappings(),
    {
        self.mappings.as_str()
    }

    /// The sources.
    pub fn sources(&self) -> (res: &Vec<String>)
        ensures
            res@.map_values(|s: String| s@) == self.spec_sources(),
    {
        &self.sources
    }

    /// The contents of the sources, by index.
    pub fn sources_content(&self) -> (res: &Vec<String>)
        ensures
            res@.map_values(|s: String| s@) == self.spec_sources_content(),
    {
        &self.sources_content
    }

    /// The names.
    pub fn names(&self) -> (res: &Vec<String>)
        ensures
            res@.map_values(|s: String| s@) == self.spec_names(),
    {
        &self.names
    }

    /// The content of source `index`, if the map holds one.
    pub fn get_source_content(&self, index: usize) -> (res: Option<&String>)
        ensures
            index < self.spec_sources_content().len() ==> (res matches Some(c) && c@
                == self.spec_sources_content()[index as int]),
            index >= self.spec_sources_content().len() ==> res is None,
    {
        if index < self.sources_content.len() {
            Some(&self.sources_content[index])
        } else {
            None
        }
    }

    /// Whether the `mappings` text can be decoded: every segment decodes to
    /// 1, 4 or 5 numbers (see [`mappings_ok`]).
    pub fn mappings_decode(&self) -> (res: bool)
        ensures
            res == mappings_ok(self.mappings_bytes()),
    {
        let n = self.mappings().as_bytes().len();
        if n == usize::MAX {
            return false;
        }
        let mut it = decode_mappings(self);
        let ghost all = segments_of(self.mappings_bytes());
        loop
            invariant
                it.wf(),
                self.mappings_bytes().len() < usize::MAX,
                all == segments_of(self.mappings_bytes()),
                segments_ok(all) <==> segments_ok(it.remaining()),
            decreases it.remaining().len(),
        {
            let ghost rem = it.remaining();
            assert(segments_ok(rem) <==> (rem.len() == 0 || (segment_ok(rem[0].1) && segments_ok(
                rem.drop_first(),
            )))) by {
                if rem.len() > 0 {
                    if segment_ok(rem[0].1) && segments_ok(rem.drop_first()) {
                        assert forall|i: int| 0 <= i < rem.len() implies #[trigger] segment_ok(rem[i].1) by {
                            if i > 0 {
                                assert(rem[i] == rem.drop_first()[i - 1]);
                            }
                        }
                    }
                    if segments_ok(rem) {
                        assert(segment_ok(rem[0].1));
                        assert forall|i: int| 0 <= i < rem.drop_first().len() implies #[trigger] segment_ok(
                            rem.drop_first()[i].1,
                        ) by {
                            assert(rem.drop_first()[i] == rem[i + 1]);
                        }
                    }
                }
            }
            match it.next_segment() {
                None => {
                    return true;
                },
                Some(seg) => {
                    let mut nums: Vec<i64> = Vec::new();
                    let r = decode(seg, &mut nums);
                    assert(nums@ == decode_spec(seg@, seq![]).0);
                    if r.is_err() || !(nums.len() == 1 || nums.len() == 4 || nums.len() == 5) {
                        return false;
                    }
                },
            }
        }
    }

    /// The mappings, decoded.
    pub fn decoded_mappings(&self) -> (res: Vec<Mapping>)
        requires
            mappings_ok(self.mappings_bytes()),
        ensures
            res@ == decoded(self.mappings_bytes()),
    {
        let mut it = decode_mappings(self);
        let ghost segs = segments_of(self.mappings_bytes());
        let mut res: Vec<Mapping> = Vec::new();
        let ghost mut k: int = 0;
        loop
            invariant_except_break
                it.wf(),
                0 <= k <= segs.len(),
                segs == segments_of(self.mappings_bytes()),
                segments_ok(segs),
                it.remaining() == segs.skip(k),
                (it.state(), res@) == decode_run(decode_initial(), segs.take(k)),
            ensures
                res@ == decoded(self.mappings_bytes()),
            decreases segs.len() - k,
        {
            proof {
                assert forall|i: int| 0 <= i < it.remaining().len() implies #[trigger] segment_ok(
                    it.remaining()[i].1,
                ) by {
                    assert(it.remaining()[i] == segs[k + i]);
                }
            }
            let ghost rem = it.remaining();
            let next = it.next();
            match next {
                Some(m) => {
                    proof {
                        assert(segs.take(k + 1).drop_last() =~= segs.take(k));
                        assert(segs.skip(k)[0] == segs[k]);
                        assert(segs.skip(k).drop_first() =~= segs.skip(k + 1));
                        k = k + 1;
                    }
                    res.push(m);
                },
                None => {
                    proof {
                        assert(rem.len() == 0);
                        assert(segs.skip(k).len() == segs.len() - k);
                        assert(segs.take(k) =~= segs);
                    }
                    break ;
                },
            }
        }
        res
    }
}

/// The segments of a `mappings` text, decoded one at a time.
pub struct SegmentIter<'a> {
    pub mapping_str: &'a [u8],
    pub generated_line: usize,
    pub generated_column: u32,
    pub source_index: u32,
    pub original_line: u32,
    pub original_column: u32,
    pub name_index: u32,
    pub line: &'a [u8],
    pub nums: Vec<i64>,
    pub segment_cursor: usize,
}

impl<'a> SegmentIter<'a> {
    /// The last values read.
    pub open spec fn state(&self) -> DecodeState {
        DecodeState {
            generated_line: self.generated_line,
            generated_column: self.generated_column,
            source_index: self.source_index,
            original_line: self.original_line,
            original_column: self.original_column,
            name_index: self.name_index,
        }
    }

    /// The segments still to come: those left on the current line, then
    /// those of the lines after it.
    pub open spec fn remaining(&self) -> Seq<(int, Seq<u8>)> {
        (if self.line@.len() > 0 {
            tag_line(
                split_on(self.line@.skip(self.segment_cursor as int), 44u8),
                self.generated_line as int,
            )
        } else {
            seq![]
        }) + segments_in_lines(split_on(self.mapping_str@, 59u8), self.generated_line + 1)
    }

    pub open spec fn wf(&self) -> bool {
        &&& self.segment_cursor <= self.line@.len()
        &&& self.generated_line + self.mapping_str@.len() < usize::MAX
    }

    /// Takes the next line of the text, if any is left.
    fn next_line(&mut self) -> (res: Option<&'a [u8]>)
        requires
            old(self).wf(),
        ensures
            final(self).generated_line == old(self).generated_line,
            final(self).line == old(self).line,
            final(self).segment_cursor == old(self).segment_cursor,
            final(self).state() == old(self).state(),
            old(self).mapping_str@.len() == 0 ==> res is None && final(self).mapping_str@.len()
                == 0,
            old(self).mapping_str@.len() > 0 ==> (res matches Some(l) && (forall|g: int|
                #[trigger] segments_in_lines(split_on(old(self).mapping_str@, 59u8), g)
                    == line_segments(l@, g) + segments_in_lines(
                    split_on(final(self).mapping_str@, 59u8),
                    g + 1,
                )) && final(self).mapping_str@.len() < old(self).mapping_str@.len()),
    {
        if self.mapping_str.len() == 0 {
            return None;
        }
        let ghost ms = self.mapping_str@;
        match memchr::memchr(59u8, self.mapping_str) {
            Some(i) => {
                let temp_str = self.mapping_str;
                proof {
                    lemma_find_byte_unique(ms, 59u8, i as int);
                }
                self.mapping_str = &temp_str[i + 1..temp_str.len()];
                let l = &temp_str[0..i];
                assert(l@ =~= ms.take(i as int));
                assert(self.mapping_str@ =~= ms.skip(i + 1));
                assert forall|g: int| #[trigger] segments_in_lines(split_on(ms, 59u8), g)
                    == line_segments(l@, g) + segments_in_lines(
                    split_on(self.mapping_str@, 59u8),
                    g + 1,
                ) by {
                    let ls = split_on(ms, 59u8);
                    assert(ls[0] == l@);
                    assert(ls.drop_first() =~= split_on(self.mapping_str@, 59u8));
                }
                Some(l)
            },
            None => {
                let tem_str = self.mapping_str;
                proof {
                    lemma_find_byte(ms, 59u8);
                }
                self.mapping_str = &tem_str[0..0];
                assert(split_on(self.mapping_str@, 59u8) == seq![Seq::<u8>::empty()]) by {
                    assert(self.mapping_str@ =~= Seq::<u8>::empty());
                }
                assert forall|g: int| #[trigger] segments_in_lines(split_on(ms, 59u8), g)
                    == line_segments(tem_str@, g) + segments_in_lines(
                    split_on(self.mapping_str@, 59u8),
                    g + 1,
                ) by {
                    lemma_segments_one_line(Seq::<u8>::empty(), g + 1);
                    lemma_segments_one_line(ms, g);
                    assert(split_on(ms, 59u8) == seq![ms]);
                    assert(line_segments(ms, g) + Seq::<(int, Seq<u8>)>::empty() =~= line_segments(ms, g));
                }
                Some(tem_str)
            },
        }
    }

    proof fn lemma_split_empty_lines(&self)
        requires
            self.line@.len() == 0,
        ensures
            self.remaining() == segments_in_lines(
                split_on(self.mapping_str@, 59u8),
                self.generated_line + 1,
            ),
    {
        assert(self.remaining() =~= segments_in_lines(
            split_on(self.mapping_str@, 59u8),
            self.generated_line + 1,
        ));
    }

    /// Takes lines until a non-empty one, which becomes the current line;
    /// false when the text runs out first.
    fn advance_to_line(&mut self) -> (res: bool)
        requires
            old(self).wf(),
            old(self).line@.len() == 0,
        ensures
            final(self).wf(),
            !res ==> old(self).remaining().len() == 0,
            res ==> final(self).line@.len() > 0 && final(self).segment_cursor == 0
                && final(self).generated_line > old(self).generated_line
                && final(self).generated_column == 0,
            final(self).remaining() == old(self).remaining(),
            final(self).source_index == old(self).source_index,
            final(self).original_line == old(self).original_line,
            final(self).original_column == old(self).original_column,
            final(self).name_index == old(self).name_index,
    {
        let ghost rem0 = self.remaining();
        let ghost gl0 = self.generated_line;
        let ghost gc0 = self.generated_column;
            let mut found = false;
            while !found
                invariant
                    self.wf(),
                    self.generated_line >= gl0,
                    found ==> self.line@.len() > 0 && self.segment_cursor == 0
                        && self.generated_line > gl0 && self.generated_column == 0,
                    !found ==> self.line@.len() == 0 && self.generated_column == gc0,
                    self.remaining() == rem0,
                    rem0 == old(self).remaining(),
                    self.source_index == old(self).source_index,
                    self.original_line == old(self).original_line,
                    self.original_column == old(self).original_column,
                    self.name_index == old(self).name_index,
                decreases self.mapping_str@.len(),
            {
                proof {
                    self.lemma_split_empty_lines();
                }
                let ghost before = *self;
                let next = self.next_line();
                match next {
                    Some(line) => {
                        self.generated_line = self.generated_line + 1;
                        if line.len() > 0 {
                            self.line = line;
                            self.generated_column = 0;
                            self.segment_cursor = 0;
                            found = true;
                            assert(line@.skip(0) =~= line@);
                        }
                        proof {
                            assert(segments_in_lines(
                                split_on(before.mapping_str@, 59u8),
                                before.generated_line + 1,
                            ) == line_segments(line@, before.generated_line + 1)
                                + segments_in_lines(
                                split_on(self.mapping_str@, 59u8),
                                before.generated_line + 2,
                            ));
                            if line.len() > 0 {
                                assert(self.remaining() =~= line_segments(
                                    line@,
                                    before.generated_line + 1,
                                ) + segments_in_lines(
                                    split_on(self.mapping_str@, 59u8),
                                    before.generated_line + 2,
                                ));
                            } else {
                                assert(self.remaining() =~= line_segments(
                                    line@,
                                    before.generated_line + 1,
                                ) + segments_in_lines(
                                    split_on(self.mapping_str@, 59u8),
                                    before.generated_line + 2,
                                ));
                            }
                        }
                    },
                    None => {
                        proof {
                            assert(before.mapping_str@ =~= Seq::<u8>::empty());
                            let e = seq![Seq::<u8>::empty()];
                            assert(split_on(before.mapping_str@, 59u8) == e);
                            lemma_segments_one_line(Seq::<u8>::empty(), before.generated_line + 1);
                            assert(self.mapping_str@ =~= before.mapping_str@);
                            assert(self.remaining() =~= before.remaining());
                            assert(rem0.len() == 0);
                            assert(self.remaining() == rem0);
                        }
                        return false;
                    },
                }
            }
                true
    }

    /// The next segment and its line (in `generated_line`); the column starts
    /// again at 0 when a new line is taken.
    fn next_segment(&mut self) -> (res: Option<&'a [u8]>)
        requires
            old(self).wf(),
        ensures
            final(self).wf(),
            old(self).remaining().len() == 0 ==> res is None,
            old(self).remaining().len() > 0 ==> (res matches Some(seg) && seg@ == old(self).remaining()[0].1 && final(self).generated_line == old(self).remaining()[0].0 && final(self).remaining() == old(self).remaining().drop_first() && (final(self).generated_column
                == if old(self).remaining()[0].0 == old(self).generated_line {
                old(self).generated_column
            } else {
                0
            }) && final(self).source_index == old(self).source_index && final(self).original_line
                == old(self).original_line && final(self).original_column == old(self).original_column && final(self).name_index == old(self).name_index),
    {
        if self.line.len() == 0 {
            if !self.advance_to_line() {
                return None;
            }
        }
        let ghost line = self.line@;
        let ghost cur = self.segment_cursor;
        let ghost rest = line.skip(cur as int);
        let rest_slice = &self.line[self.segment_cursor..self.line.len()];
        assert(rest_slice@ =~= rest);
        match memchr::memchr(44u8, rest_slice) {
            Some(i) => {
                proof {
                    lemma_find_byte_unique(rest, 44u8, i as int);
                    assert(rest.skip(i + 1) =~= line.skip(cur + i + 1));
                }
                let cursor = self.segment_cursor;
                self.segment_cursor = self.segment_cursor + i + 1;
                let seg = &self.line[cursor..cursor + i];
                assert(seg@ =~= rest.take(i as int));
                proof {
                    let pieces = split_on(rest, 44u8);
                    assert(tag_line(pieces, self.generated_line as int).drop_first() =~= tag_line(
                        pieces.drop_first(),
                        self.generated_line as int,
                    ));
                }
                Some(seg)
            },
            None => {
                proof {
                    lemma_find_byte(rest, 44u8);
                }
                let cursor = self.segment_cursor;
                let l = self.line;
                self.line = &l[0..0];
                self.segment_cursor = 0;
                let seg = &l[cursor..l.len()];
                assert(seg@ =~= rest);
                assert(self.line@ =~= Seq::<u8>::empty());
                Some(seg)
            },
        }
    }

    /// The mapping of the next segment, if any is left.
    pub fn next(&mut self) -> (res: Option<Mapping>)
        requires
            old(self).wf(),
            old(self).remaining().len() > 0 ==> segment_ok(old(self).remaining()[0].1),
        ensures
            final(self).wf(),
            old(self).remaining().len() == 0 ==> res is None,
            old(self).remaining().len() > 0 ==> ({
                let (st, m) = decode_step(
                    old(self).state(),
                    old(self).remaining()[0].0,
                    old(self).remaining()[0].1,
                );
                &&& res == Some(m)
                &&& final(self).state() == st
                &&& final(self).remaining() == old(self).remaining().drop_first()
            }),
    {
        let ghost st0 = self.state();
        let ghost rem0 = self.remaining();
        let next = self.next_segment();
        match next {
            Some(segment) => {
                assert(segment_ok(rem0[0].1));
                self.nums.clear();
                let r = decode(segment, &mut self.nums);
                assert(self.nums@ =~= decode_spec(segment@, seq![]).0);
                self.generated_column = (self.generated_column as i64 + self.nums[0]) as u32;
                let mut original: Option<OriginalLocation> = None;
                if self.nums.len() > 1 {
                    self.source_index = (self.source_index as i64 + self.nums[1]) as u32;
                    self.original_line = (self.original_line as i64 + self.nums[2]) as u32;
                    self.original_column = (self.original_column as i64 + self.nums[3]) as u32;
                    let mut name: Option<u32> = None;
                    if self.nums.len() > 4 {
                        self.name_index = (self.name_index as i64 + self.nums[4]) as u32;
                        name = Some(self.name_index);
                    }
                    original = Some(
                        OriginalLocation {
                            source_index: self.source_index,
                            original_line: self.original_line,
                            original_column: self.original_column,
                            name_index: name,
                        },
                    );
                }
                Some(
                    Mapping {
                        generated_line: self.generated_line as u32,
                        generated_column: self.generated_column,
                        original,
                    },
                )
            },
            None => None,
        }
    }
}

/// The segments of the `mappings` text of `source_map`, to be decoded one at
/// a time.
pub fn decode_mappings<'a>(source_map: &'a SourceMap) -> (res: SegmentIter<'a>)
    requires
        source_map.mappings_bytes().len() < usize::MAX,
    ensures
        res.wf(),
        res.state() == decode_initial(),
        res.remaining() == segments_of(source_map.mappings_bytes()),
{
    let mapping_str = source_map.mappings().as_bytes();
    let res = SegmentIter {
        mapping_str,
        generated_line: 0,
        generated_column: 0,
        source_index: 0,
        original_line: 1,
        original_column: 0,
        name_index: 0,
        line: &mapping_str[0..0],
        nums: Vec::new(),
        segment_cursor: 0,
    };
    assert(res.line@ =~= Seq::<u8>::empty());
    assert(res.remaining() =~= segments_of(source_map.mappings_bytes()));
    res
}

} // verus!
