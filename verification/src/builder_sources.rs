//! Sources whose maps are built token by token with the `sourcemap` crate:
//! raw text, original files mapped onto themselves, concatenations, and
//! sources that carry a map of their own.
use vstd::prelude::*;
use vstd::string::StringSliceAdditionalSpecFns;
use vstd::predicate::Predicate;
use vstd::utf8::{decode_utf8, encode_utf8, valid_utf8};
use crate::text::{string_from_utf8_lossy, utf8_lossy};

use crate::sourcemap_api::{
    opt_str_chars, opt_string_chars, pad_contents, position_of, register_opt, builder_add, builder_add_source, builder_contents, builder_file, builder_into_sourcemap,
    builder_names, builder_new, builder_set_source_contents, builder_sources, builder_tokens,
    position_le, sm_contents, sm_file, sm_names, sm_sources, sm_tokens, sorted_by_position,
    TokenView,
};
pub use crate::sourcemap_api::SourceMap;

verus! {

/// Options for building a source map.
#[derive(Debug, Clone, PartialEq, Eq, Hash)]
pub struct MapOptions {
    /// If set to false the implementation may omit mappings for columns.
    pub columns: bool,
    /// Whether the contents of the sources go into the map.
    pub include_source_contents: bool,
    /// The generated file that the map is for.
    pub file: Option<String>,
}

/// Options for building a source map, as plain values.
pub struct MapOptionsView {
    pub columns: bool,
    pub include_source_contents: bool,
    pub file: Option<Seq<char>>,
}

impl View for MapOptions {
    type V = MapOptionsView;

    open spec fn view(&self) -> MapOptionsView {
        MapOptionsView {
            columns: self.columns,
            include_source_contents: self.include_source_contents,
            file: opt_string_chars(self.file),
        }
    }
}

impl Default for MapOptions {
    fn default() -> (res: MapOptions)
        ensures
            res.columns,
            res.include_source_contents,
            res.file is None,
    {
        MapOptions { columns: true, include_source_contents: true, file: None }
    }
}


/// Text given as bytes or as a string, with no map.
pub enum RawSource {
    Buffer(Vec<u8>),
    Source(String),
}

impl From<Vec<u8>> for RawSource {
    fn from(i: Vec<u8>) -> (res: Self) {
        RawSource::Buffer(i)
    }
}

impl vstd::std_specs::convert::FromSpecImpl<Vec<u8>> for RawSource {
    open spec fn obeys_from_spec() -> bool {
        true
    }

    open spec fn from_spec(i: Vec<u8>) -> Self {
        RawSource::Buffer(i)
    }
}

impl From<String> for RawSource {
    fn from(i: String) -> (res: Self) {
        RawSource::Source(i)
    }
}

impl vstd::std_specs::convert::FromSpecImpl<String> for RawSource {
    open spec fn obeys_from_spec() -> bool {
        true
    }

    open spec fn from_spec(i: String) -> Self {
        RawSource::Source(i)
    }
}

/// A source: text, as bytes, that may have a map.
pub trait Source {
    /// The bytes of the text.
    spec fn spec_buffer(&self) -> Seq<u8>;

    /// Whether `m` is what `map` may give under `options`.
    spec fn map_allows(&self, options: MapOptionsView, m: Option<MapModel>) -> bool;

    /// Whether `map` runs under `options` without panicking.
    spec fn map_safe(&self, options: MapOptionsView) -> bool;

    /// The map of the text, if it has one; its tokens are in order of
    /// position.
    fn map(&self, options: &MapOptions) -> (res: Option<SourceMap>)
        requires
            self.map_safe(options@),
        ensures
            self.map_allows(options@, model_of(res)),
            res matches Some(m) ==> sorted_by_position(sm_tokens(m)),
    ;

    /// The bytes of the text.
    fn buffer(&self) -> (res: &[u8])
        ensures
            res@ == self.spec_buffer(),
    ;

    /// The text: the bytes read as UTF-8 (invalid sequences replaced).
    fn source(&self) -> (res: String)
        ensures
            valid_utf8(self.spec_buffer()) ==> res@ == decode_utf8(self.spec_buffer()),
    {
        string_from_utf8_lossy(self.buffer())
    }

    /// The length of the text in bytes.
    fn size(&self) -> (res: usize)
        ensures
            res == self.spec_buffer().len(),
    {
        self.buffer().len()
    }
}

impl RawSource {
    /// Whether the text was given as bytes.
    pub fn is_buffer(&self) -> (res: bool)
        ensures
            res == (*self is Buffer),
    {
        match self {
            RawSource::Buffer(_) => true,
            RawSource::Source(_) => false,
        }
    }
}

impl Source for RawSource {
    open spec fn spec_buffer(&self) -> Seq<u8> {
        match self {
            RawSource::Buffer(b) => b@,
            RawSource::Source(s) => encode_utf8(s@),
        }
    }

    open spec fn map_allows(&self, options: MapOptionsView, m: Option<MapModel>) -> bool {
        m is None
    }

    open spec fn map_safe(&self, options: MapOptionsView) -> bool {
        true
    }

    /// Raw text has no map.
    fn map(&self, options: &MapOptions) -> (res: Option<SourceMap>) {
        None
    }

    fn buffer(&self) -> (res: &[u8]) {
        match self {
            RawSource::Buffer(i) => i.as_slice(),
            RawSource::Source(i) => i.as_str().as_bytes(),
        }
    }

    /// The string itself, or the bytes read as UTF-8 (invalid sequences
    /// replaced).
    fn source(&self) -> (res: String)
        ensures
            match self {
                RawSource::Buffer(b) => res@ == utf8_lossy(b@),
                RawSource::Source(t) => res@ == t@,
            },
    {
        match self {
            RawSource::Buffer(i) => string_from_utf8_lossy(i.as_slice()),
            RawSource::Source(i) => {
                proof {
                    vstd::utf8::encode_utf8_valid_utf8(i@);
                    vstd::utf8::encode_utf8_decode_utf8(i@);
                }
                i.clone()
            },
        }
    }

    fn size(&self) -> (res: usize) {
        match self {
            RawSource::Buffer(i) => i.len(),
            RawSource::Source(i) => i.as_str().as_bytes().len(),
        }
    }
}

/// A file's own text under its name, mapped onto itself.
pub struct OriginalSource {
    source: String,
    name: String,
}

impl OriginalSource {
    /// The text.
    pub closed spec fn spec_source(&self) -> Seq<char> {
        self.source@
    }

    /// The name.
    pub closed spec fn spec_name(&self) -> Seq<char> {
        self.name@
    }

    /// The source `source` under the name `name`.
    pub fn new(source: &str, name: &str) -> (res: OriginalSource)
        ensures
            res.spec_source() == source@,
            res.spec_name() == name@,
    {
        OriginalSource { source: source.to_string(), name: name.to_string() }
    }

    /// The name.
    pub fn get_name(&self) -> (res: &str)
        ensures
            res@ == self.spec_name(),
    {
        self.name.as_str()
    }
}

/// What a source with a map of its own is made from: its text and name, its
/// map, and optionally the text its map points into with that text's own map.
pub struct SourceMapSourceOptions<S, F, M, O, I> {
    pub source: S,
    pub name: F,
    pub source_map: M,
    pub original_source: Option<O>,
    pub inner_source_map: Option<I>,
    pub remove_original_source: bool,
}


/// What a map holds: its generated file, its tokens in order, its names and
/// sources by index, and the contents of the sources.
pub struct MapModel {
    pub file: Option<Seq<char>>,
    pub tokens: Seq<TokenView>,
    pub names: Seq<Seq<char>>,
    pub sources: Seq<Seq<char>>,
    pub contents: Seq<Option<Seq<char>>>,
}

/// What map `m` holds.
pub open spec fn map_model(m: SourceMap) -> MapModel {
    MapModel { file: sm_file(m), tokens: sm_tokens(m), names: sm_names(m), sources: sm_sources(m), contents: sm_contents(m) }
}

/// What an optional map holds.
pub open spec fn model_of(m: Option<SourceMap>) -> Option<MapModel> {
    match m {
        Some(x) => Some(map_model(x)),
        None => None,
    }
}

/// The token of an original file at line `line`, column `col`: it maps the
/// position onto itself in source 0, with no name.
pub open spec fn self_token(line: int, col: int) -> TokenView {
    TokenView {
        dst_line: line as u32,
        dst_col: col as u32,
        src_line: line as u32,
        src_col: col as u32,
        src_id: 0,
        name_id: u32::MAX,
        is_range: false,
    }
}

/// Whether `t` maps its position onto itself in source 0, with no name.
pub open spec fn is_self_token(t: TokenView) -> bool {
    t == self_token(t.dst_line as int, t.dst_col as int)
}

/// Reading one character of an original file with columns, from line `line`
/// and column `col`: a token at the start of each line, after each `;` and
/// `}`, and at each `{`.
pub open spec fn statement_step(st: (int, int, Seq<TokenView>), c: char) -> (int, int, Seq<TokenView>) {
    let (line, col, ts) = st;
    let ts1 = if col == 0 {
        ts.push(self_token(line, 0))
    } else {
        ts
    };
    if c == '\n' {
        (line + 1, 0, ts1)
    } else if c == ';' || c == '}' {
        (line, col + 1, ts1.push(self_token(line, col + 1)))
    } else if c == '{' {
        (line, col + 1, ts1.push(self_token(line, col)))
    } else {
        (line, col + 1, ts1)
    }
}

/// The characters read one after another from the start.
pub open spec fn statement_run(cs: Seq<char>) -> (int, int, Seq<TokenView>)
    decreases cs.len(),
{
    if cs.len() == 0 {
        (0, 0, seq![])
    } else {
        statement_step(statement_run(cs.drop_last()), cs.last())
    }
}

/// The number of newline characters.
pub open spec fn newline_count(cs: Seq<char>) -> nat
    decreases cs.len(),
{
    if cs.len() == 0 {
        0
    } else {
        newline_count(cs.drop_last()) + if cs.last() == '\n' {
            1nat
        } else {
            0nat
        }
    }
}

/// The tokens of an original file: with columns, those of
/// [`statement_step`]; without, one at the start of each line.
pub open spec fn original_tokens(text: Seq<char>, columns: bool) -> Seq<TokenView> {
    if columns {
        statement_run(text).2
    } else {
        Seq::new(newline_count(text) + 1, |i: int| self_token(i, 0))
    }
}

/// The map of an original file: its one source, with its text as content if
/// asked for, and its tokens.
pub open spec fn original_map(text: Seq<char>, name: Seq<char>, options: MapOptionsView) -> MapModel {
    MapModel {
        file: None,
        tokens: original_tokens(text, options.columns),
        names: seq![],
        sources: seq![name],
        contents: if options.include_source_contents {
            seq![Some(text)]
        } else {
            seq![]
        },
    }
}

/// Tokens in lexicographic order of all their values, position first.
pub open spec fn token_leq(a: TokenView, b: TokenView) -> bool {
    if a.dst_line != b.dst_line {
        a.dst_line < b.dst_line
    } else if a.dst_col != b.dst_col {
        a.dst_col < b.dst_col
    } else if a.src_line != b.src_line {
        a.src_line < b.src_line
    } else if a.src_col != b.src_col {
        a.src_col < b.src_col
    } else if a.src_id != b.src_id {
        a.src_id < b.src_id
    } else if a.name_id != b.name_id {
        a.name_id < b.name_id
    } else {
        !a.is_range || b.is_range
    }
}

proof fn lemma_token_leq_total()
    ensures
        vstd::relations::total_ordering(|a: TokenView, b: TokenView| token_leq(a, b)),
{
}

/// Two orderings by position of the same tokens, all of which map their
/// position onto itself, are the same sequence.
pub proof fn lemma_self_tokens_unique(a: Seq<TokenView>, b: Seq<TokenView>)
    requires
        sorted_by_position(a),
        sorted_by_position(b),
        a.to_multiset() == b.to_multiset(),
        forall|i: int| 0 <= i < a.len() ==> is_self_token(#[trigger] a[i]),
    ensures
        a == b,
{
    broadcast use vstd::seq_lib::group_to_multiset_ensures;

    let leq = |x: TokenView, y: TokenView| token_leq(x, y);
    lemma_token_leq_total();
    assert forall|i: int| 0 <= i < b.len() implies is_self_token(#[trigger] b[i]) by {
        assert(b.to_multiset().count(b[i]) > 0);
        assert(a.contains(b[i]));
    }
    assert forall|i: int, j: int| 0 <= i < j < a.len() implies #[trigger] leq(a[i], a[j]) by {
        assert(position_le(a[i], a[j]));
    }
    assert forall|i: int, j: int| 0 <= i < j < b.len() implies #[trigger] leq(b[i], b[j]) by {
        assert(position_le(b[i], b[j]));
    }
    vstd::seq_lib::lemma_sorted_unique(a, b, leq);
}


/// The number of newline characters of `s`.
fn count_newlines_of(s: &str) -> (res: usize)
    requires
        s@.len() < u32::MAX,
    ensures
        res == newline_count(s@),
        res <= s@.len(),
{
    let mut n: usize = 0;
    for c in it: s.chars()
        invariant
            it.seq() == s@,
            n == newline_count(s@.take(it.index() as int)),
            n <= it.index(),
            s@.len() < u32::MAX,
    {
        assert(s@.take(it.index() + 1).drop_last() =~= s@.take(it.index() as int));
        if c == '\n' {
            n += 1;
        }
    }
    assert(s@.take(s@.len() as int) =~= s@);
    n
}

/// Whether `ts` is in order and ends no later than line `line`, column `col`.
pub open spec fn tokens_upto(ts: Seq<TokenView>, line: int, col: int) -> bool {
    &&& sorted_by_position(ts)
    &&& forall|i: int| 0 <= i < ts.len() ==> position_le(#[trigger] ts[i], self_token(line, col))
    &&& forall|i: int| 0 <= i < ts.len() ==> is_self_token(#[trigger] ts[i])
}

impl Source for OriginalSource {
    open spec fn spec_buffer(&self) -> Seq<u8> {
        encode_utf8(self.spec_source())
    }

    open spec fn map_allows(&self, options: MapOptionsView, m: Option<MapModel>) -> bool {
        m == Some(original_map(self.spec_source(), self.spec_name(), options))
    }

    open spec fn map_safe(&self, options: MapOptionsView) -> bool {
        self.spec_source().len() < u32::MAX
    }

    /// The map of the file onto itself: with columns, a token at the start of
    /// each line, after each `;` and `}` and at each `{`; without, one at the
    /// start of each line.  The file is its only source, with its text as
    /// content if asked for.
    fn map(&self, options: &MapOptions) -> (res: Option<SourceMap>) {
        let ghost text = self.source@;
        let ghost name = self.name@;
        let columns = options.columns;
        let mut b = builder_new(None);
        let source_id = builder_add_source(&mut b, self.name.as_str());
        assert(builder_sources(b) =~= seq![name]);
        if options.include_source_contents {
            builder_set_source_contents(&mut b, source_id, Some(self.source.as_str()));
            assert(builder_contents(b) =~= seq![Some(text)]);
        }
        let ghost contents = builder_contents(b);
        assert(contents == original_map(text, name, options@).contents);
        assert(seq![name][0] == name);
        assert(seq![name].contains(name));
        assert(position_of(seq![name], name) == 0);
        if columns {
            let mut line: u32 = 0;
            let mut col: u32 = 0;
            for c in it: self.source.as_str().chars()
                invariant
                    it.seq() == text,
                    text == self.source@,
                    name == self.name@,
                    text.len() < u32::MAX,
                    (line as int, col as int, builder_tokens(b)) == statement_run(text.take(it.index() as int)),
                    line <= it.index(),
                    col <= it.index(),
                    tokens_upto(builder_tokens(b), line as int, col as int),
                    builder_sources(b) == seq![name],
                    builder_sources(b).no_duplicates(),
                    builder_names(b) == Seq::<Seq<char>>::empty(),
                    builder_contents(b) == contents,
                    builder_file(b) == None::<Seq<char>>,
                    seq![name].contains(name),
                    position_of(seq![name], name) == 0,
            {
                let ghost before = builder_tokens(b);
                assert(text.take(it.index() + 1).drop_last() =~= text.take(it.index() as int));
                if col == 0 {
                    builder_add(&mut b, line, 0, line, 0, Some(self.name.as_str()), None, false);
                    assert(builder_tokens(b).last() == self_token(line as int, 0));
                }
                let ghost mid = builder_tokens(b);
                if c == '\n' {
                    line = line + 1;
                    col = 0;
                } else if c == ';' || c == '}' {
                    col = col + 1;
                    builder_add(&mut b, line, col, line, col, Some(self.name.as_str()), None, false);
                    assert(builder_tokens(b).last() == self_token(line as int, col as int));
                } else if c == '{' {
                    builder_add(&mut b, line, col, line, col, Some(self.name.as_str()), None, false);
                    assert(builder_tokens(b).last() == self_token(line as int, col as int));
                    col = col + 1;
                } else {
                    col = col + 1;
                }
                proof {
                    let ts = builder_tokens(b);
                    assert forall|i: int| 0 <= i < ts.len() implies position_le(#[trigger] ts[i], self_token(line as int, col as int)) by {
                        if i < before.len() {
                            assert(ts[i] == before[i]);
                        }
                    }
                    assert forall|i: int| 0 <= i < ts.len() implies is_self_token(#[trigger] ts[i]) by {
                        if i < before.len() {
                            assert(ts[i] == before[i]);
                        }
                    }
                    assert forall|i: int, j: int| 0 <= i <= j < ts.len() implies position_le(#[trigger] ts[i], #[trigger] ts[j]) by {
                        if j < before.len() {
                            assert(ts[i] == before[i] && ts[j] == before[j]);
                        } else if i < before.len() {
                            assert(ts[i] == before[i]);
                        } else if j < mid.len() {
                            assert(ts[i] == mid[i] && ts[j] == mid[j]);
                        }
                    }
                }
            }
            assert(text.take(text.len() as int) =~= text);
        } else {
            let count = count_newlines_of(self.source.as_str()) + 1;
            for index in 0..count
                invariant
                    count == newline_count(text) + 1,
                    count <= u32::MAX,
                    name == self.name@,
                    builder_tokens(b) == Seq::new(index as nat, |i: int| self_token(i, 0)),
                    tokens_upto(builder_tokens(b), index as int, 0),
                    builder_sources(b) == seq![name],
                    builder_sources(b).no_duplicates(),
                    builder_names(b) == Seq::<Seq<char>>::empty(),
                    builder_contents(b) == contents,
                    builder_file(b) == None::<Seq<char>>,
                    seq![name].contains(name),
                    position_of(seq![name], name) == 0,
            {
                let ghost before = builder_tokens(b);
                let l = index as u32;
                builder_add(&mut b, l, 0, l, 0, Some(self.name.as_str()), None, false);
                proof {
                    let ts = builder_tokens(b);
                    assert(ts =~= Seq::new((index + 1) as nat, |i: int| self_token(i, 0)));
                }
            }
        }
        let ghost added = builder_tokens(b);
        let m = builder_into_sourcemap(b);
        proof {
            lemma_self_tokens_unique(added, sm_tokens(m));
            assert(map_model(m).names =~= Seq::<Seq<char>>::empty());
        }
        Some(m)
    }

    fn buffer(&self) -> (res: &[u8]) {
        let t = self.source.as_str();
        assert(t@ == self.source@);
        let r = t.as_bytes();
        assert(r@ == encode_utf8(self.source@));
        assert(self.spec_buffer() == encode_utf8(self.source@));
        r
    }

    /// The text.
    fn source(&self) -> (res: String) {
        proof {
            vstd::utf8::encode_utf8_valid_utf8(self.source@);
            vstd::utf8::encode_utf8_decode_utf8(self.source@);
        }
        self.source.clone()
    }

    fn size(&self) -> (res: usize) {
        self.source.as_str().as_bytes().len()
    }
}


/// What a builder holds, as plain values, and whether building has gone
/// without panicking.
pub struct BuildState {
    pub ok: bool,
    pub tokens: Seq<TokenView>,
    pub sources: Seq<Seq<char>>,
    pub contents: Seq<Option<Seq<char>>>,
    pub names: Seq<Seq<char>>,
}

/// An empty builder.
pub open spec fn build_initial() -> BuildState {
    BuildState { ok: true, tokens: seq![], sources: seq![], contents: seq![], names: seq![] }
}

/// A token added to a builder, its source and name registered if new; the
/// token added is returned.  Past `u32::MAX` sources or names the indices
/// would wrap, which counts as failing.
pub open spec fn build_add(
    st: BuildState,
    dst_line: u32,
    dst_col: u32,
    src_line: u32,
    src_col: u32,
    source: Option<Seq<char>>,
    name: Option<Seq<char>>,
) -> (BuildState, TokenView) {
    let (s1, sid) = register_opt(st.sources, source);
    let (n1, nid) = register_opt(st.names, name);
    let t = TokenView { dst_line, dst_col, src_line, src_col, src_id: sid, name_id: nid, is_range: false };
    if st.sources.len() < u32::MAX && st.names.len() < u32::MAX {
        (BuildState { tokens: st.tokens.push(t), sources: s1, names: n1, ..st }, t)
    } else {
        (BuildState { ok: false, ..st }, t)
    }
}

/// The contents of source `id` set on a builder; panics unless `id` is a
/// source's.
pub open spec fn build_set_contents(st: BuildState, id: u32, c: Option<Seq<char>>) -> BuildState {
    if id < st.sources.len() {
        BuildState { contents: pad_contents(st.contents, st.sources.len() as int).update(id as int, c), ..st }
    } else {
        BuildState { ok: false, ..st }
    }
}

/// Whether map `m` is what a builder in state `st` for `file` turns into: its
/// tokens are the builder's sorted by position.
pub open spec fn built_from(st: BuildState, file: Option<Seq<char>>, m: MapModel) -> bool {
    &&& m.file == file
    &&& m.tokens.to_multiset() == st.tokens.to_multiset()
    &&& sorted_by_position(m.tokens)
    &&& m.sources == st.sources
    &&& m.contents == st.contents
    &&& m.names == st.names
}

/// The source of token `t` of map `m`, if it has one.
pub open spec fn token_source(m: MapModel, t: TokenView) -> Option<Seq<char>> {
    if t.src_id != u32::MAX && t.src_id < m.sources.len() {
        Some(m.sources[t.src_id as int])
    } else {
        None
    }
}

/// The name of token `t` of map `m`, if it has one.
pub open spec fn token_name(m: MapModel, t: TokenView) -> Option<Seq<char>> {
    if t.name_id != u32::MAX && t.name_id < m.names.len() {
        Some(m.names[t.name_id as int])
    } else {
        None
    }
}

/// The contents of source `id` of map `m`, if set.
pub open spec fn source_contents_of(m: MapModel, id: u32) -> Option<Seq<char>> {
    if id < m.contents.len() {
        m.contents[id as int]
    } else {
        None
    }
}

/// One token of a part's map added to the concatenation's builder: its line
/// moved by the part's first line `cur` (kept as `cur` plus the lines since
/// the previous token at `prev`), and the contents of its source copied when
/// asked for.
pub open spec fn concat_token_step(with_contents: bool, st: BuildState, cur: int, prev: int, m: MapModel, t: TokenView) -> (BuildState, int, int) {
    if !st.ok {
        (st, cur, prev)
    } else if t.dst_line < prev || cur + (t.dst_line - prev) > u32::MAX {
        (BuildState { ok: false, ..st }, cur, prev)
    } else {
        let line = cur + (t.dst_line - prev);
        let (st1, raw) = build_add(st, line as u32, t.dst_col, t.src_line, t.src_col, token_source(m, t), token_name(m, t));
        let st2 = if with_contents {
            build_set_contents(st1, raw.src_id, source_contents_of(m, t.src_id))
        } else {
            st1
        };
        (st2, line, t.dst_line as int)
    }
}

/// The tokens of a part's map added one after another.
pub open spec fn concat_tokens(with_contents: bool, st: BuildState, cur: int, m: MapModel, ts: Seq<TokenView>) -> (BuildState, int, int)
    decreases ts.len(),
{
    if ts.len() == 0 {
        (st, cur, 0)
    } else {
        let (st1, c1, p1) = concat_tokens(with_contents, st, cur, m, ts.drop_last());
        concat_token_step(with_contents, st1, c1, p1, m, ts.last())
    }
}

/// A part's map, if any, added from line `cur`.
pub open spec fn concat_part(with_contents: bool, st: BuildState, cur: int, cm: Option<MapModel>) -> BuildState {
    match cm {
        Some(m) => concat_tokens(with_contents, st, cur, m, m.tokens).0,
        None => st,
    }
}

/// The parts added one after another, part `i` having `counts[i]` newlines
/// and map `cms[i]`: the builder and the next part's first line.
pub open spec fn concat_parts(with_contents: bool, counts: Seq<nat>, cms: Seq<Option<MapModel>>) -> (BuildState, int)
    decreases cms.len(),
{
    if cms.len() == 0 {
        (build_initial(), 0)
    } else {
        let k = cms.len() - 1;
        let (st, cur) = concat_parts(with_contents, counts, cms.drop_last());
        let st1 = concat_part(with_contents, st, cur, cms.last());
        let next = cur + (counts[k] as u32);
        if next > u32::MAX {
            (BuildState { ok: false, ..st1 }, cur)
        } else {
            (st1, next)
        }
    }
}


/// A text with its map, and optionally the map of the source that its map
/// points into (the inner map), through which its map is read.
#[derive(Debug, Clone)]
pub struct SourceMapSource {
    source: String,
    name: String,
    source_map: SourceMap,
    original_source: Option<String>,
    inner_source_map: Option<SourceMap>,
    remove_original_source: bool,
}

impl SourceMapSource {
    /// The text.
    pub closed spec fn spec_source(&self) -> Seq<char> {
        self.source@
    }

    /// The name of the generated file.
    pub closed spec fn spec_name(&self) -> Seq<char> {
        self.name@
    }

    /// What the map holds.
    pub closed spec fn spec_map(&self) -> MapModel {
        map_model(self.source_map)
    }

    /// What the inner map holds, if there is one.
    pub closed spec fn spec_inner_map(&self) -> Option<MapModel> {
        model_of(self.inner_source_map)
    }

    /// The text of the inner map's source, if given.
    pub closed spec fn spec_original_source(&self) -> Option<Seq<char>> {
        opt_string_chars(self.original_source)
    }

    /// Whether contents from the inner map are left out.
    pub closed spec fn spec_remove_original_source(&self) -> bool {
        self.remove_original_source
    }

    /// The source made of `options`.
    pub fn new(options: SourceMapSourceOptions<&str, &str, SourceMap, &str, SourceMap>) -> (res: SourceMapSource)
        ensures
            res.spec_source() == options.source@,
            res.spec_name() == options.name@,
            res.spec_map() == map_model(options.source_map),
            res.spec_original_source() == opt_str_chars(options.original_source),
            res.spec_inner_map() == model_of(options.inner_source_map),
            res.spec_remove_original_source() == options.remove_original_source,
    {
        SourceMapSource {
            source: options.source.to_string(),
            name: options.name.to_string(),
            source_map: options.source_map,
            original_source: match options.original_source {
                Some(o) => Some(o.to_string()),
                None => None,
            },
            inner_source_map: options.inner_source_map,
            remove_original_source: options.remove_original_source,
        }
    }
}

/// The sources that a concatenation holds.
pub enum BoxSource {
    Raw(RawSource),
    Original(OriginalSource),
    Concat(ConcatSource),
    Mapped(SourceMapSource),
}

/// Sources one after another, their maps joined line after line.
pub struct ConcatSource {
    inner: Vec<u8>,
    children: Vec<BoxSource>,
}

/// The bytes of a source's text.
pub open spec fn box_buffer(s: BoxSource) -> Seq<u8>
    decreases s,
    via lemma_box_buffer_decreases
{
    match s {
        BoxSource::Raw(r) => r.spec_buffer(),
        BoxSource::Original(o) => encode_utf8(o.spec_source()),
        BoxSource::Concat(c) => children_buffers(c.parts()),
        BoxSource::Mapped(m) => encode_utf8(m.spec_source()),
    }
}

#[via_fn]
proof fn lemma_box_buffer_decreases(s: BoxSource) {
    if let BoxSource::Concat(c) = s {
        assert(decreases_to!(s => c.children@));
    }
}

/// The bytes of sources, one after another.
pub open spec fn children_buffers(cs: Seq<BoxSource>) -> Seq<u8>
    decreases cs,
{
    if cs.len() == 0 {
        seq![]
    } else {
        children_buffers(cs.drop_last()) + box_buffer(cs.last())
    }
}

/// The number of newlines of each source.
pub open spec fn children_counts(cs: Seq<BoxSource>) -> Seq<nat> {
    Seq::new(cs.len(), |i: int| crate::helpers::count_newlines(box_buffer(cs[i])))
}

/// Whether an optional map has its tokens in order of position.
pub open spec fn opt_sorted(m: Option<MapModel>) -> bool {
    m matches Some(x) ==> sorted_by_position(x.tokens)
}

/// The token of the inner map that a token of the outer map is read
/// through, if its source is the inner map's file and the inner map has a
/// token there; else the token itself.  Each comes with whether the lookup
/// panics, its source, name and the contents of its source, each read in
/// its own map.
pub open spec fn find_original(outer: MapModel, inner: MapModel, t: TokenView) -> (bool, TokenView, Option<Seq<char>>, Option<Seq<char>>, Option<Seq<char>>) {
    let own = (true, t, token_source(outer, t), token_name(outer, t), source_contents_of(outer, t.src_id));
    if inner.file == token_source(outer, t) {
        match crate::sourcemap_api::lookup_index(inner.tokens, t.src_line, t.src_col) {
            Some(i) => {
                let it = inner.tokens[i];
                if it.is_range && t.src_col < it.dst_col {
                    (false, t, None, None, None)
                } else {
                    let ot = crate::sourcemap_api::looked_up(it, t.src_col);
                    (true, ot, token_source(inner, ot), token_name(inner, ot), source_contents_of(inner, ot.src_id))
                }
            },
            None => own,
        }
    } else {
        own
    }
}

/// One token of the outer map added through the inner map: at its generated
/// position, with the original that [`find_original`] gives, and the
/// contents of its source when asked for.
pub open spec fn remap_step(with_contents: bool, outer: MapModel, inner: MapModel, st: BuildState, t: TokenView) -> BuildState {
    let (fine, ot, src, name, content) = find_original(outer, inner, t);
    if !st.ok {
        st
    } else if !fine {
        BuildState { ok: false, ..st }
    } else {
        let (st1, raw) = build_add(st, t.dst_line, t.dst_col, ot.src_line, ot.src_col, src, name);
        if with_contents {
            build_set_contents(st1, raw.src_id, content)
        } else {
            st1
        }
    }
}

/// The tokens of the outer map added one after another.
pub open spec fn remap_fold(with_contents: bool, outer: MapModel, inner: MapModel, ts: Seq<TokenView>) -> BuildState
    decreases ts.len(),
{
    if ts.len() == 0 {
        build_initial()
    } else {
        remap_step(with_contents, outer, inner, remap_fold(with_contents, outer, inner, ts.drop_last()), ts.last())
    }
}

/// Whether contents go into a map read through an inner map.
pub open spec fn remap_contents(x: SourceMapSource, options: MapOptionsView) -> bool {
    options.include_source_contents && !x.spec_remove_original_source()
}

/// What the map of a source with a map may be: read through the inner map if
/// there is one, else the map itself.
pub open spec fn mapped_allows(x: SourceMapSource, options: MapOptionsView, m: Option<MapModel>) -> bool {
    match x.spec_inner_map() {
        Some(inner) => m matches Some(mm) && built_from(
            remap_fold(remap_contents(x, options), x.spec_map(), inner, x.spec_map().tokens),
            Some(x.spec_name()),
            mm,
        ),
        None => m == Some(x.spec_map()),
    }
}

/// Whether reading a map through its inner map runs without panicking, its
/// maps' tokens being in order of position as the crate keeps them.
pub open spec fn mapped_safe(x: SourceMapSource, options: MapOptionsView) -> bool {
    &&& sorted_by_position(x.spec_map().tokens)
    &&& x.spec_inner_map() matches Some(inner) ==> {
        &&& sorted_by_position(inner.tokens)
        &&& remap_fold(remap_contents(x, options), x.spec_map(), inner, x.spec_map().tokens).ok
    }
}

/// Whether `cms` are maps that the first `cms.len()` sources of `cs` may
/// give, in order of position.
pub open spec fn children_allow(cs: Seq<BoxSource>, options: MapOptionsView, cms: Seq<Option<MapModel>>) -> bool
    decreases cs, cms.len(),
{
    if cms.len() == 0 {
        true
    } else if cms.len() > cs.len() {
        false
    } else {
        &&& children_allow(cs, options, cms.drop_last())
        &&& box_map_allows(cs[cms.len() - 1], options, cms.last())
        &&& opt_sorted(cms.last())
    }
}

/// What the map of a source may be.
pub open spec fn box_map_allows(s: BoxSource, options: MapOptionsView, m: Option<MapModel>) -> bool
    decreases s, 0nat,
{
    match s {
        BoxSource::Raw(r) => m is None,
        BoxSource::Original(o) => m == Some(original_map(o.spec_source(), o.spec_name(), options)),
        BoxSource::Concat(c) => concat_allows(c, options, m),
        BoxSource::Mapped(x) => mapped_allows(x, options, m),
    }
}

/// What the map of a concatenation may be: for some maps that its parts may
/// give, those maps joined.
pub open spec fn concat_allows(c: ConcatSource, options: MapOptionsView, m: Option<MapModel>) -> bool
    decreases c, 0nat,
{
    exists|cms: Seq<Option<MapModel>>|
        #![trigger concat_parts(options.include_source_contents, children_counts(c.parts()), cms)]
        cms.len() == c.parts().len() && children_allow(c.parts(), options, cms) && (m matches Some(mm) && built_from(
            concat_parts(options.include_source_contents, children_counts(c.parts()), cms).0,
            options.file,
            mm,
        ))
}

/// Whether the maps of the sources run without panicking.
pub open spec fn children_safe(cs: Seq<BoxSource>, options: MapOptionsView) -> bool
    decreases cs, 0nat,
{
    if cs.len() == 0 {
        true
    } else {
        children_safe(cs.drop_last(), options) && box_map_safe(cs.last(), options)
    }
}

/// Whether the map of a source runs without panicking: for a concatenation,
/// whatever maps its parts give, joining them stays within 32 bits and every
/// token copied with contents has a source.
pub open spec fn box_map_safe(s: BoxSource, options: MapOptionsView) -> bool
    decreases s, 1nat,
{
    match s {
        BoxSource::Raw(r) => true,
        BoxSource::Original(o) => o.spec_source().len() < u32::MAX,
        BoxSource::Concat(c) => concat_safe(c, options),
        BoxSource::Mapped(x) => mapped_safe(x, options),
    }
}

/// Whether the map of a concatenation runs without panicking.
pub open spec fn concat_safe(c: ConcatSource, options: MapOptionsView) -> bool
    decreases c, 1nat,
{
    children_safe(c.parts(), options) && forall|cms: Seq<Option<MapModel>>|
        #![trigger concat_parts(options.include_source_contents, children_counts(c.parts()), cms)]
        children_allow(c.parts(), options, cms) ==> concat_parts(
            options.include_source_contents,
            children_counts(c.parts()),
            cms,
        ).0.ok
}


/// Whether builder `b` holds what `st` says, without having panicked.
pub open spec fn build_view(b: sourcemap::SourceMapBuilder, st: BuildState) -> bool {
    &&& st.ok
    &&& builder_tokens(b) == st.tokens
    &&& builder_sources(b) == st.sources
    &&& builder_contents(b) == st.contents
    &&& builder_names(b) == st.names
    &&& builder_sources(b).no_duplicates()
    &&& builder_names(b).no_duplicates()
}

/// The number of newline bytes of `b`.
fn count_newline_bytes(b: &[u8]) -> (res: usize)
    ensures
        res == crate::helpers::count_newlines(b@),
{
    let mut n: usize = 0;
    let mut i: usize = 0;
    while i < b.len()
        invariant
            i <= b@.len(),
            n == crate::helpers::count_newlines(b@.take(i as int)),
            n <= i,
        decreases b@.len() - i,
    {
        assert(b@.take(i + 1).drop_last() =~= b@.take(i as int));
        if b[i] == 10 {
            n = n + 1;
        }
        i = i + 1;
    }
    assert(b@.take(i as int) =~= b@);
    n
}

/// An optional string as an optional slice of it.
fn as_opt_str(s: &Option<String>) -> (res: Option<&str>)
    ensures
        opt_str_chars(res) == opt_string_chars(*s),
{
    match s {
        Some(t) => Some(t.as_str()),
        None => None,
    }
}

/// The source of token `t` of `m`, as `Token::get_source` reads it.
fn token_source_exec(m: &SourceMap, t: TokenView) -> (res: Option<String>)
    ensures
        opt_string_chars(res) == token_source(map_model(*m), t),
{
    if t.src_id == u32::MAX {
        None
    } else {
        crate::sourcemap_api::sm_get_source(m, t.src_id)
    }
}

/// The name of token `t` of `m`, as `Token::get_name` reads it.
fn token_name_exec(m: &SourceMap, t: TokenView) -> (res: Option<String>)
    ensures
        opt_string_chars(res) == token_name(map_model(*m), t),
{
    if t.name_id == u32::MAX {
        None
    } else {
        crate::sourcemap_api::sm_get_name(m, t.name_id)
    }
}

proof fn lemma_concat_tokens_prefix(with_contents: bool, st: BuildState, cur: int, m: MapModel, ts: Seq<TokenView>, k: int)
    requires
        concat_tokens(with_contents, st, cur, m, ts).0.ok,
        0 <= k <= ts.len(),
    ensures
        concat_tokens(with_contents, st, cur, m, ts.take(k)).0.ok,
    decreases ts.len(),
{
    if k == ts.len() {
        assert(ts.take(k) =~= ts);
    } else {
        let (st1, c1, p1) = concat_tokens(with_contents, st, cur, m, ts.drop_last());
        if !st1.ok {
            assert(!concat_token_step(with_contents, st1, c1, p1, m, ts.last()).0.ok);
        }
        lemma_concat_tokens_prefix(with_contents, st, cur, m, ts.drop_last(), k);
        assert(ts.drop_last().take(k) =~= ts.take(k));
    }
}

/// Adds the tokens of the map of `concattable`, if it has one, to
/// `sm_builder`, their lines moved down by `cur_gen_line`; it gives what that
/// map holds.
fn concat_source_impl(
    sm_builder: &mut sourcemap::SourceMapBuilder,
    cur_gen_line: u32,
    concattable: &BoxSource,
    options: &MapOptions,
    Ghost(st): Ghost<BuildState>,
) -> (res: Ghost<Option<MapModel>>)
    requires
        build_view(*old(sm_builder), st),
        box_map_safe(*concattable, options@),
        forall|cm: Option<MapModel>|
            box_map_allows(*concattable, options@, cm) && opt_sorted(cm) ==> #[trigger] concat_part(
                options.include_source_contents,
                st,
                cur_gen_line as int,
                cm,
            ).ok,
    ensures
        box_map_allows(*concattable, options@, res@),
        opt_sorted(res@),
        build_view(*final(sm_builder), concat_part(options.include_source_contents, st, cur_gen_line as int, res@)),
        builder_file(*final(sm_builder)) == builder_file(*old(sm_builder)),
    decreases *concattable, 1nat,
{
    let source_map = concattable.map_of(options);
    let ghost cm = model_of(source_map);
    assert(concat_part(options.include_source_contents, st, cur_gen_line as int, cm).ok);
    let with_contents = options.include_source_contents;
    match &source_map {
        None => {},
        Some(sm) => {
            let ghost m = map_model(*sm);
            let ghost ts = m.tokens;
            let mut prev_line: u32 = 0;
            let mut cur: u32 = cur_gen_line;
            let mut idx: usize = 0;
            let mut done = false;
            proof {
                assert(ts.take(0) =~= Seq::<TokenView>::empty());
            }
            while !done
                invariant
                    idx <= ts.len(),
                    done ==> idx == ts.len(),
                    ts == sm_tokens(*sm),
                    m == map_model(*sm),
                    with_contents == options.include_source_contents,
                    concat_tokens(with_contents, st, cur_gen_line as int, m, ts).0.ok,
                    build_view(
                        *sm_builder,
                        concat_tokens(with_contents, st, cur_gen_line as int, m, ts.take(idx as int)).0,
                    ),
                    cur as int == concat_tokens(with_contents, st, cur_gen_line as int, m, ts.take(idx as int)).1,
                    prev_line as int == concat_tokens(with_contents, st, cur_gen_line as int, m, ts.take(idx as int)).2,
                    builder_file(*sm_builder) == builder_file(*old(sm_builder)),
                decreases ts.len() + 1 - idx - (if done { 1int } else { 0int }),
            {
                match crate::sourcemap_api::sm_get_token(sm, idx) {
                    None => {
                        done = true;
                    },
                    Some(token) => {
                        proof {
                            lemma_concat_tokens_prefix(with_contents, st, cur_gen_line as int, m, ts, idx + 1);
                            assert(ts.take(idx + 1).drop_last() =~= ts.take(idx as int));
                        }
                        let line_diff = token.dst_line - prev_line;
                        let line = cur + line_diff;
                        let src = token_source_exec(sm, token);
                        let name = token_name_exec(sm, token);
                        let raw = crate::sourcemap_api::builder_add(
                            sm_builder,
                            line,
                            token.dst_col,
                            token.src_line,
                            token.src_col,
                            as_opt_str(&src),
                            as_opt_str(&name),
                            false,
                        );
                        if with_contents {
                            let c = crate::sourcemap_api::sm_get_source_contents(sm, token.src_id);
                            builder_set_source_contents(sm_builder, raw.src_id, as_opt_str(&c));
                        }
                        cur = line;
                        prev_line = token.dst_line;
                        idx = idx + 1;
                    },
                }
            }
            assert(ts.take(ts.len() as int) =~= ts);
        },
    }
    Ghost(cm)
}

impl BoxSource {
    /// The bytes of the text.
    fn buffer_of(&self) -> (res: &[u8])
        ensures
            res@ == box_buffer(*self),
    {
        match self {
            BoxSource::Raw(r) => r.buffer(),
            BoxSource::Original(o) => o.buffer(),
            BoxSource::Concat(c) => {
                proof {
                    use_type_invariant(c);
                }
                c.inner.as_slice()
            },
            BoxSource::Mapped(m) => m.source.as_str().as_bytes(),
        }
    }

    /// The map of the source, as [`box_map_allows`] allows it.
    fn map_of(&self, options: &MapOptions) -> (res: Option<SourceMap>)
        requires
            box_map_safe(*self, options@),
        ensures
            box_map_allows(*self, options@, model_of(res)),
            res matches Some(m) ==> sorted_by_position(sm_tokens(m)),
        decreases *self, 0nat,
    {
        match self {
            BoxSource::Raw(_) => None,
            BoxSource::Original(o) => o.map(options),
            BoxSource::Concat(c) => c.map_of(options),
            BoxSource::Mapped(x) => x.map_of(options),
        }
    }
}

impl ConcatSource {
    #[verifier::type_invariant]
    spec fn inv(&self) -> bool {
        self.inner@ == children_buffers(self.children@)
    }

    /// The parts.
    pub closed spec fn parts(&self) -> Seq<BoxSource> {
        self.children@
    }

    /// The parts `items`, one after another.
    pub fn new(items: Vec<BoxSource>) -> (res: ConcatSource)
        ensures
            res.parts() == items@,
    {
        let mut inner: Vec<u8> = Vec::new();
        let n = items.len();
        for i in 0..n
            invariant
                n == items@.len(),
                inner@ == children_buffers(items@.take(i as int)),
        {
            let b = items[i].buffer_of();
            let ghost before = inner@;
            let mut k: usize = 0;
            while k < b.len()
                invariant
                    inner@ == before + b@.take(k as int),
                    k <= b@.len(),
                decreases b@.len() - k,
            {
                inner.push(b[k]);
                k = k + 1;
                assert(inner@ =~= before + b@.take(k as int));
            }
            assert(b@.take(k as int) =~= b@);
            assert(items@.take(i + 1).drop_last() =~= items@.take(i as int));
        }
        assert(items@.take(n as int) =~= items@);
        ConcatSource { inner, children: items }
    }

    /// Adds `item` after the other parts.
    pub fn add(&mut self, item: BoxSource)
        ensures
            final(self).parts() == old(self).parts().push(item),
    {
        let mut taken = ConcatSource { inner: Vec::new(), children: Vec::new() };
        proof {
            assert(children_buffers(Seq::<BoxSource>::empty()) =~= Seq::<u8>::empty());
        }
        std::mem::swap(self, &mut taken);
        proof {
            use_type_invariant(&taken);
        }
        let ConcatSource { inner: mut inner, children: mut children } = taken;
        let b = item.buffer_of();
        let mut k: usize = 0;
        let ghost before = inner@;
        while k < b.len()
            invariant
                inner@ == before + b@.take(k as int),
                k <= b@.len(),
            decreases b@.len() - k,
        {
            inner.push(b[k]);
            k = k + 1;
            assert(inner@ =~= before + b@.take(k as int));
        }
        assert(b@.take(k as int) =~= b@);
        let ghost old_children = children@;
        children.push(item);
        assert(children@.drop_last() =~= old_children);
        *self = ConcatSource { inner, children };
    }

    /// The map of the parts joined: each part's tokens moved down by the
    /// lines of the parts before it, with their sources, names and (when
    /// asked for) source contents, in a map for `options.file`.
    fn map_of(&self, options: &MapOptions) -> (res: Option<SourceMap>)
        requires
            box_map_safe(BoxSource::Concat(*self), options@),
        ensures
            box_map_allows(BoxSource::Concat(*self), options@, model_of(res)),
            res matches Some(m) ==> sorted_by_position(sm_tokens(m)),
        decreases *self, 2nat,
    {
        proof {
            use_type_invariant(self);
        }
        let ghost cs = self.children@;
        let ghost counts = children_counts(cs);
        let with_contents = options.include_source_contents;
        let ghost ov = options@;
        assert(concat_safe(*self, ov));
        assert(ov.include_source_contents == with_contents);
        assert forall|c2: Seq<Option<MapModel>>|
            #![trigger children_allow(cs, ov, c2)]
            children_allow(cs, ov, c2) implies concat_parts(with_contents, counts, c2).0.ok by {
            assert(concat_parts(ov.include_source_contents, children_counts(self.children@), c2).0.ok);
        }
        let mut b = builder_new(as_opt_str(&options.file));
        let mut cur: u32 = 0;
        let ghost mut cms: Seq<Option<MapModel>> = seq![];
        let n = self.children.len();
        for i in 0..n
            invariant
                n == cs.len(),
                cs == self.children@,
                counts == children_counts(cs),
                with_contents == options.include_source_contents,
                cms.len() == i,
                children_allow(cs, options@, cms),
                children_safe(cs, options@),
                forall|c2: Seq<Option<MapModel>>|
                    #![trigger children_allow(cs, options@, c2)]
                    children_allow(cs, options@, c2) ==> concat_parts(with_contents, counts, c2).0.ok,
                build_view(b, concat_parts(with_contents, counts, cms).0),
                cur as int == concat_parts(with_contents, counts, cms).1,
                builder_file(b) == opt_string_chars(options.file),
        {
            let child = &self.children[i];
            proof {
                assert(decreases_to!(self => self.children));
                assert(decreases_to!(self.children => self.children@));
                assert(decreases_to!(self.children@ => self.children@[i as int]));
                lemma_children_safe(cs, options@, i as int);
                assert forall|cm: Option<MapModel>|
                    box_map_allows(*child, options@, cm) && opt_sorted(cm) implies #[trigger] concat_part(
                    with_contents,
                    concat_parts(with_contents, counts, cms).0,
                    cur as int,
                    cm,
                ).ok by {
                    let c2 = cms.push(cm);
                    assert(c2.drop_last() =~= cms);
                    assert(children_allow(cs, options@, c2));
                }
            }
            let line_len = count_newline_bytes(child.buffer_of());
            let g = concat_source_impl(&mut b, cur, child, options, Ghost(concat_parts(with_contents, counts, cms).0));
            proof {
                let c2 = cms.push(g@);
                assert(c2.drop_last() =~= cms);
                assert(children_allow(cs, options@, c2));
                assert(concat_parts(with_contents, counts, c2).0.ok);
                cms = c2;
            }
            cur = cur + #[verifier::truncate] (line_len as u32);
        }
        let ghost fin = concat_parts(with_contents, counts, cms).0;
        let m = builder_into_sourcemap(b);
        assert(children_allow(cs, options@, cms));
        assert(built_from(fin, opt_string_chars(options.file), map_model(m)));
        assert(cms.len() == self.children@.len() && children_allow(self.children@, options@, cms) && (Some(map_model(m)) matches Some(mm) && built_from(
            concat_parts(options.include_source_contents, children_counts(self.children@), cms).0,
            options@.file,
            mm,
        )));
        assert(concat_parts(ov.include_source_contents, children_counts(self.children@), cms)
            == concat_parts(with_contents, counts, cms));
        assert(concat_allows(*self, ov, Some(map_model(m))));
        Some(m)
    }
}

proof fn lemma_children_safe(cs: Seq<BoxSource>, options: MapOptionsView, k: int)
    requires
        children_safe(cs, options),
        0 <= k < cs.len(),
    ensures
        box_map_safe(cs[k], options),
    decreases cs.len(),
{
    if k < cs.len() - 1 {
        lemma_children_safe(cs.drop_last(), options, k);
    }
}


/// The contents of the source of `token` in `source_map`.
fn load_source_contents(source_map: &SourceMap, token: TokenView) -> (res: Option<String>)
    ensures
        opt_string_chars(res) == source_contents_of(map_model(*source_map), token.src_id),
{
    crate::sourcemap_api::sm_get_source_contents(source_map, token.src_id)
}

/// The token that `token` of `source_map` is read through, as
/// [`find_original`] gives it, with its source, name and the contents of its
/// source, each read in its own map.
fn find_original_token(source_map: &SourceMap, inner_source_map: &SourceMap, token: TokenView) -> (res: (
    TokenView,
    Option<String>,
    Option<String>,
    Option<String>,
))
    requires
        sorted_by_position(sm_tokens(*inner_source_map)),
        find_original(map_model(*source_map), map_model(*inner_source_map), token).0,
    ensures
        ({
            let f = find_original(map_model(*source_map), map_model(*inner_source_map), token);
            &&& res.0 == f.1
            &&& opt_string_chars(res.1) == f.2
            &&& opt_string_chars(res.2) == f.3
            &&& opt_string_chars(res.3) == f.4
        }),
{
    let source = token_source_exec(source_map, token);
    let file = crate::sourcemap_api::sm_get_file(inner_source_map);
    let same = match (&file, &source) {
        (Some(a), Some(b)) => *a == *b,
        (None, None) => true,
        _ => false,
    };
    if same {
        match crate::sourcemap_api::sm_lookup_token(inner_source_map, token.src_line, token.src_col) {
            Some(original_token) => {
                let c = crate::sourcemap_api::sm_get_source_contents(inner_source_map, original_token.src_id);
                let src = token_source_exec(inner_source_map, original_token);
                let name = token_name_exec(inner_source_map, original_token);
                (original_token, src, name, c)
            },
            None => {
                let name = token_name_exec(source_map, token);
                (token, source, name, load_source_contents(source_map, token))
            },
        }
    } else {
        let name = token_name_exec(source_map, token);
        (token, source, name, load_source_contents(source_map, token))
    }
}

proof fn lemma_remap_fold_prefix(with_contents: bool, outer: MapModel, inner: MapModel, ts: Seq<TokenView>, k: int)
    requires
        remap_fold(with_contents, outer, inner, ts).ok,
        0 <= k <= ts.len(),
    ensures
        remap_fold(with_contents, outer, inner, ts.take(k)).ok,
    decreases ts.len(),
{
    if k == ts.len() {
        assert(ts.take(k) =~= ts);
    } else {
        lemma_remap_fold_prefix(with_contents, outer, inner, ts.drop_last(), k);
        assert(ts.drop_last().take(k) =~= ts.take(k));
    }
}

/// The map with the contents of source `name` set to `original_source`
/// where the map has no such source; the crate's `get_source` is asked,
/// which gives the source's name, so a source that is found is left as it
/// is.
fn ensure_source_map(source_map: SourceMap, name: &str, original_source: Option<String>) -> (res: SourceMap)
    requires
        sm_sources(source_map).len() < u32::MAX,
    ensures
        map_model(res) == map_model(source_map),
{
    let mut inner = source_map;
    let mut source_idx: Option<u32> = None;
    let mut idx: u32 = 0;
    let mut done = false;
    while !done
        invariant
            idx <= sm_sources(inner).len(),
            sm_sources(inner).len() < u32::MAX,
            done ==> idx == sm_sources(inner).len() || source_idx is Some,
            source_idx matches Some(i) ==> i < sm_sources(inner).len(),
            map_model(inner) == map_model(source_map),
        decreases sm_sources(inner).len() + 1 - idx - (if done { 1int } else { 0int }),
    {
        match crate::sourcemap_api::sm_get_source(&inner, idx) {
            None => {
                done = true;
            },
            Some(source) => {
                if source.as_str() == name {
                    source_idx = Some(idx);
                    done = true;
                } else {
                    idx = idx + 1;
                }
            },
        }
    }
    if let Some(source_idx) = source_idx {
        if crate::sourcemap_api::sm_get_source(&inner, source_idx).is_none() {
            crate::sourcemap_api::sm_set_source_contents(&mut inner, source_idx, as_opt_str(&original_source));
        }
    }
    inner
}

/// One token of `source_map` added to `b` through `inner_source_map`, as
/// [`remap_step`] adds it.
fn remap_token(
    b: &mut sourcemap::SourceMapBuilder,
    source_map: &SourceMap,
    inner_source_map: &SourceMap,
    token: TokenView,
    with_contents: bool,
    Ghost(st): Ghost<BuildState>,
)
    requires
        build_view(*old(b), st),
        sorted_by_position(sm_tokens(*inner_source_map)),
        remap_step(with_contents, map_model(*source_map), map_model(*inner_source_map), st, token).ok,
    ensures
        build_view(*final(b), remap_step(with_contents, map_model(*source_map), map_model(*inner_source_map), st, token)),
        builder_file(*final(b)) == builder_file(*old(b)),
{
    let (original_token, src, name, source_content) = find_original_token(source_map, inner_source_map, token);
    let raw = crate::sourcemap_api::builder_add(
        b,
        token.dst_line,
        token.dst_col,
        original_token.src_line,
        original_token.src_col,
        as_opt_str(&src),
        as_opt_str(&name),
        false,
    );
    if with_contents {
        builder_set_source_contents(b, raw.src_id, as_opt_str(&source_content));
    }
}

/// The tokens of `source_map` added to `b`, which is empty, one after
/// another through `inner_source_map`.
fn remap_tokens(b: &mut sourcemap::SourceMapBuilder, source_map: &SourceMap, inner_source_map: &SourceMap, with_contents: bool)
    requires
        build_view(*old(b), build_initial()),
        sorted_by_position(sm_tokens(*inner_source_map)),
        remap_fold(with_contents, map_model(*source_map), map_model(*inner_source_map), sm_tokens(*source_map)).ok,
    ensures
        build_view(*final(b), remap_fold(with_contents, map_model(*source_map), map_model(*inner_source_map), sm_tokens(*source_map))),
        builder_file(*final(b)) == builder_file(*old(b)),
{
    let ghost outer = map_model(*source_map);
    let ghost im = map_model(*inner_source_map);
    let ghost ts = outer.tokens;
    let mut idx: usize = 0;
    let mut done = false;
    proof {
        assert(ts.take(0) =~= Seq::<TokenView>::empty());
    }
    while !done
        invariant
            idx <= ts.len(),
            done ==> idx == ts.len(),
            ts == sm_tokens(*source_map),
            outer == map_model(*source_map),
            im == map_model(*inner_source_map),
            sorted_by_position(im.tokens),
            remap_fold(with_contents, outer, im, ts).ok,
            build_view(*b, remap_fold(with_contents, outer, im, ts.take(idx as int))),
            builder_file(*b) == builder_file(*old(b)),
        decreases ts.len() + 1 - idx - (if done { 1int } else { 0int }),
    {
        match crate::sourcemap_api::sm_get_token(source_map, idx) {
            None => {
                done = true;
            },
            Some(token) => {
                proof {
                    lemma_remap_fold_prefix(with_contents, outer, im, ts, idx + 1);
                    assert(ts.take(idx + 1).drop_last() =~= ts.take(idx as int));
                }
                remap_token(
                    b,
                    source_map,
                    inner_source_map,
                    token,
                    with_contents,
                    Ghost(remap_fold(with_contents, outer, im, ts.take(idx as int))),
                );
                idx = idx + 1;
            },
        }
    }
    assert(ts.take(ts.len() as int) =~= ts);
}

impl SourceMapSource {
    /// The map read through the inner map, if there is one: each token keeps
    /// its generated position and takes the original that
    /// [`find_original`] gives; contents are copied when asked for and the
    /// original source is not removed.
    fn remap_with_inner_sourcemap(&self, options: &MapOptions) -> (res: Option<SourceMap>)
        requires
            mapped_safe(*self, options@),
        ensures
            self.inner_source_map is None ==> res is None,
            self.inner_source_map matches Some(inner) ==> res matches Some(m) && built_from(
                remap_fold(
                    remap_contents(*self, options@),
                    map_model(self.source_map),
                    map_model(inner),
                    map_model(self.source_map).tokens,
                ),
                Some(self.name@),
                map_model(m),
            ),
    {
        let mut b = builder_new(Some(self.name.as_str()));
        match &self.inner_source_map {
            None => None,
            Some(inner) => {
                let with_contents = options.include_source_contents && !self.remove_original_source;
                remap_tokens(&mut b, &self.source_map, inner, with_contents);
                Some(builder_into_sourcemap(b))
            },
        }
    }

    /// The map read through the inner map if there is one, else the map.
    fn map_of(&self, options: &MapOptions) -> (res: Option<SourceMap>)
        requires
            mapped_safe(*self, options@),
        ensures
            mapped_allows(*self, options@, model_of(res)),
            res matches Some(m) ==> sorted_by_position(sm_tokens(m)),
    {
        match self.remap_with_inner_sourcemap(options) {
            Some(m) => Some(m),
            None => Some(crate::sourcemap_api::sm_clone(&self.source_map)),
        }
    }
}


impl Source for BoxSource {
    open spec fn spec_buffer(&self) -> Seq<u8> {
        box_buffer(*self)
    }

    open spec fn map_allows(&self, options: MapOptionsView, m: Option<MapModel>) -> bool {
        box_map_allows(*self, options, m)
    }

    open spec fn map_safe(&self, options: MapOptionsView) -> bool {
        box_map_safe(*self, options)
    }

    fn map(&self, options: &MapOptions) -> (res: Option<SourceMap>) {
        self.map_of(options)
    }

    fn buffer(&self) -> (res: &[u8]) {
        self.buffer_of()
    }
}

impl Source for ConcatSource {
    open spec fn spec_buffer(&self) -> Seq<u8> {
        children_buffers(self.parts())
    }

    open spec fn map_allows(&self, options: MapOptionsView, m: Option<MapModel>) -> bool {
        concat_allows(*self, options, m)
    }

    open spec fn map_safe(&self, options: MapOptionsView) -> bool {
        concat_safe(*self, options)
    }

    fn map(&self, options: &MapOptions) -> (res: Option<SourceMap>) {
        self.map_of(options)
    }

    fn buffer(&self) -> (res: &[u8]) {
        proof {
            use_type_invariant(self);
        }
        self.inner.as_slice()
    }
}

impl Source for SourceMapSource {
    open spec fn spec_buffer(&self) -> Seq<u8> {
        encode_utf8(self.spec_source())
    }

    open spec fn map_allows(&self, options: MapOptionsView, m: Option<MapModel>) -> bool {
        mapped_allows(*self, options, m)
    }

    open spec fn map_safe(&self, options: MapOptionsView) -> bool {
        mapped_safe(*self, options)
    }

    fn map(&self, options: &MapOptions) -> (res: Option<SourceMap>) {
        self.map_of(options)
    }

    fn buffer(&self) -> (res: &[u8]) {
        self.source.as_str().as_bytes()
    }

    /// The text.
    fn source(&self) -> (res: String) {
        proof {
            vstd::utf8::encode_utf8_valid_utf8(self.source@);
            vstd::utf8::encode_utf8_decode_utf8(self.source@);
        }
        self.source.clone()
    }
}

impl From<RawSource> for BoxSource {
    fn from(s: RawSource) -> (res: BoxSource) {
        BoxSource::Raw(s)
    }
}

impl vstd::std_specs::convert::FromSpecImpl<RawSource> for BoxSource {
    open spec fn obeys_from_spec() -> bool {
        true
    }

    open spec fn from_spec(s: RawSource) -> BoxSource {
        BoxSource::Raw(s)
    }
}

impl From<OriginalSource> for BoxSource {
    fn from(s: OriginalSource) -> (res: BoxSource) {
        BoxSource::Original(s)
    }
}

impl vstd::std_specs::convert::FromSpecImpl<OriginalSource> for BoxSource {
    open spec fn obeys_from_spec() -> bool {
        true
    }

    open spec fn from_spec(s: OriginalSource) -> BoxSource {
        BoxSource::Original(s)
    }
}

impl From<ConcatSource> for BoxSource {
    fn from(s: ConcatSource) -> (res: BoxSource) {
        BoxSource::Concat(s)
    }
}

impl vstd::std_specs::convert::FromSpecImpl<ConcatSource> for BoxSource {
    open spec fn obeys_from_spec() -> bool {
        true
    }

    open spec fn from_spec(s: ConcatSource) -> BoxSource {
        BoxSource::Concat(s)
    }
}

impl From<SourceMapSource> for BoxSource {
    fn from(s: SourceMapSource) -> (res: BoxSource) {
        BoxSource::Mapped(s)
    }
}

impl vstd::std_specs::convert::FromSpecImpl<SourceMapSource> for BoxSource {
    open spec fn obeys_from_spec() -> bool {
        true
    }

    open spec fn from_spec(s: SourceMapSource) -> BoxSource {
        BoxSource::Mapped(s)
    }
}

impl Source for String {
    open spec fn spec_buffer(&self) -> Seq<u8> {
        encode_utf8(self@)
    }

    open spec fn map_allows(&self, options: MapOptionsView, m: Option<MapModel>) -> bool {
        m is None
    }

    open spec fn map_safe(&self, options: MapOptionsView) -> bool {
        true
    }

    /// A string has no map.
    fn map(&self, options: &MapOptions) -> (res: Option<SourceMap>) {
        None
    }

    fn buffer(&self) -> (res: &[u8]) {
        self.as_str().as_bytes()
    }

    /// The string itself.
    fn source(&self) -> (res: String) {
        proof {
            vstd::utf8::encode_utf8_valid_utf8(self@);
            vstd::utf8::encode_utf8_decode_utf8(self@);
        }
        self.clone()
    }

    fn size(&self) -> (res: usize) {
        self.as_str().as_bytes().len()
    }
}

impl Source for Vec<u8> {
    open spec fn spec_buffer(&self) -> Seq<u8> {
        self@
    }

    open spec fn map_allows(&self, options: MapOptionsView, m: Option<MapModel>) -> bool {
        m is None
    }

    open spec fn map_safe(&self, options: MapOptionsView) -> bool {
        true
    }

    /// Bytes have no map.
    fn map(&self, options: &MapOptions) -> (res: Option<SourceMap>) {
        None
    }

    fn buffer(&self) -> (res: &[u8]) {
        self.as_slice()
    }

    fn size(&self) -> (res: usize) {
        self.len()
    }
}


/// What a cache of maps of `source` keeps: maps that `source` may give under
/// the options they are kept with.
pub struct CachePred<T> {
    pub source: T,
}

impl<T: Source> Predicate<Vec<(MapOptions, Option<SourceMap>)>> for CachePred<T> {
    open spec fn predicate(&self, v: Vec<(MapOptions, Option<SourceMap>)>) -> bool {
        forall|i: int|
            0 <= i < v@.len() ==> self.source.map_allows(#[trigger] v@[i].0@, model_of(v@[i].1)) && opt_sorted(
                model_of(v@[i].1),
            )
    }
}

/// A source whose maps are kept, by options, once made.
///
/// The kept maps sit in a vstd `InvCell`, so that `map` can keep one through
/// a shared reference, as a lock would; the cell's invariant says that each
/// kept map is one the inner source may give for its options.  They are kept
/// as a `Vec` of options and map, looked up by comparing options, rather than
/// a hash map keyed by options: options hold a `String`, and for such a key
/// vstd states nothing of what a hash map's lookups return.
pub struct CachedSource<T: Source> {
    inner: T,
    cached_maps: vstd::cell::invcell::InvCell<Vec<(MapOptions, Option<SourceMap>)>, CachePred<T>>,
}

/// A copy of options.
fn clone_options(o: &MapOptions) -> (res: MapOptions)
    ensures
        res@ == o@,
{
    MapOptions {
        columns: o.columns,
        include_source_contents: o.include_source_contents,
        file: match &o.file {
            Some(f) => Some(f.clone()),
            None => None,
        },
    }
}

/// Whether two options are the same.
fn same_options(a: &MapOptions, b: &MapOptions) -> (res: bool)
    ensures
        res == (a@ == b@),
{
    let same_file = match (&a.file, &b.file) {
        (Some(x), Some(y)) => *x == *y,
        (None, None) => true,
        _ => false,
    };
    a.columns == b.columns && a.include_source_contents == b.include_source_contents && same_file
}

/// A copy of an optional map.
fn clone_opt_map(m: &Option<SourceMap>) -> (res: Option<SourceMap>)
    ensures
        model_of(res) == model_of(*m),
{
    match m {
        Some(x) => Some(crate::sourcemap_api::sm_clone(x)),
        None => None,
    }
}

impl<T: Source> CachedSource<T> {
    #[verifier::type_invariant]
    spec fn inv(&self) -> bool {
        self.cached_maps.predicate() == CachePred { source: self.inner }
    }

    /// The source whose maps are kept.
    pub closed spec fn spec_inner(&self) -> T {
        self.inner
    }

    /// `inner` with no maps kept yet.
    pub fn new(inner: T) -> (res: CachedSource<T>)
        ensures
            res.spec_inner() == inner,
    {
        let cached_maps = vstd::cell::invcell::InvCell::new(Vec::new(), Ghost(CachePred { source: inner }));
        CachedSource { inner, cached_maps }
    }

    /// The source whose maps were kept.
    pub fn into_inner(self) -> (res: T)
        ensures
            res == self.spec_inner(),
    {
        let CachedSource { inner, cached_maps } = self;
        inner
    }
}

impl<T: Source> Source for CachedSource<T> {
    open spec fn spec_buffer(&self) -> Seq<u8> {
        self.spec_inner().spec_buffer()
    }

    open spec fn map_allows(&self, options: MapOptionsView, m: Option<MapModel>) -> bool {
        self.spec_inner().map_allows(options, m)
    }

    open spec fn map_safe(&self, options: MapOptionsView) -> bool {
        self.spec_inner().map_safe(options)
    }

    /// The map kept for `options`, or else the inner source's map, kept
    /// from then on.
    fn map(&self, options: &MapOptions) -> (res: Option<SourceMap>) {
        proof {
            use_type_invariant(self);
        }
        let mut cached = self.cached_maps.replace(Vec::new());
        let mut found: Option<Option<SourceMap>> = None;
        let mut i: usize = 0;
        while i < cached.len()
            invariant
                i <= cached@.len(),
                self.cached_maps.predicate() == (CachePred { source: self.inner }),
                (CachePred { source: self.inner }).predicate(cached),
                found matches Some(m) ==> self.inner.map_allows(options@, model_of(m)) && opt_sorted(model_of(m)),
            decreases cached@.len() - i,
        {
            if found.is_none() && same_options(&cached[i].0, options) {
                found = Some(clone_opt_map(&cached[i].1));
            }
            i = i + 1;
        }
        let res = match found {
            Some(m) => m,
            None => {
                let m = self.inner.map(options);
                let ghost before = cached@;
                cached.push((clone_options(options), clone_opt_map(&m)));
                assert forall|k: int| 0 <= k < cached@.len() implies self.inner.map_allows(
                    #[trigger] cached@[k].0@,
                    model_of(cached@[k].1),
                ) && opt_sorted(model_of(cached@[k].1)) by {
                    if k < before.len() {
                        assert(cached@[k] == before[k]);
                    }
                }
                m
            },
        };
        self.cached_maps.replace(cached);
        res
    }

    fn buffer(&self) -> (res: &[u8]) {
        self.inner.buffer()
    }

    fn source(&self) -> (res: String) {
        self.inner.source()
    }

    fn size(&self) -> (res: usize) {
        self.inner.size()
    }
}

/// A token of the outer map whose source is not the inner map's file is not
/// read through the inner map: it is added at its generated position with
/// its own source, original line and column, name and source contents.
pub proof fn lemma_remap_keeps_other_tokens(
    with_contents: bool,
    outer: MapModel,
    inner: MapModel,
    st: BuildState,
    t: TokenView,
)
    requires
        st.ok,
        token_source(outer, t) != inner.file,
    ensures
        find_original(outer, inner, t) == (
            true,
            t,
            token_source(outer, t),
            token_name(outer, t),
            source_contents_of(outer, t.src_id),
        ),
        remap_step(with_contents, outer, inner, st, t) == ({
            let (st1, raw) = build_add(
                st,
                t.dst_line,
                t.dst_col,
                t.src_line,
                t.src_col,
                token_source(outer, t),
                token_name(outer, t),
            );
            if with_contents {
                build_set_contents(st1, raw.src_id, source_contents_of(outer, t.src_id))
            } else {
                st1
            }
        }),
{
}

} // verus!
