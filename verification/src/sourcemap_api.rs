//! The parts of the `sourcemap` crate that building and reading maps use:
//! its builder and its map type, whose contents have names here, and the
//! methods called on them, each with what it does to those contents.
use vstd::prelude::*;

verus! {

#[verifier::external_type_specification]
#[verifier::external_body]
pub struct ExSourceMapBuilder(sourcemap::SourceMapBuilder);

/// A source map of the `sourcemap` crate.  Its tokens, sources, contents,
/// names and file have names below; the methods that the library calls say
/// what they read or change of them.
#[verifier::external_body]
#[derive(Debug)]
pub struct SourceMap {
    inner: sourcemap::SourceMap,
}

/// A token of a map as plain values: the generated position, the original
/// position, the indices of its source and name (`u32::MAX` for none) and
/// whether it maps a range.
#[derive(Clone, Copy, Debug, PartialEq, Eq, Structural)]
pub struct TokenView {
    pub dst_line: u32,
    pub dst_col: u32,
    pub src_line: u32,
    pub src_col: u32,
    pub src_id: u32,
    pub name_id: u32,
    pub is_range: bool,
}

/// Whether `a` comes no later than `b` by generated position.
pub open spec fn position_le(a: TokenView, b: TokenView) -> bool {
    a.dst_line < b.dst_line || (a.dst_line == b.dst_line && a.dst_col <= b.dst_col)
}

/// Whether tokens are in order of their generated positions.
pub open spec fn sorted_by_position(ts: Seq<TokenView>) -> bool {
    forall|i: int, j: int| 0 <= i <= j < ts.len() ==> position_le(#[trigger] ts[i], #[trigger] ts[j])
}

/// The tokens added to a builder, in the order added.
pub uninterp spec fn builder_tokens(b: sourcemap::SourceMapBuilder) -> Seq<TokenView>;

/// The sources registered with a builder, by index.
pub uninterp spec fn builder_sources(b: sourcemap::SourceMapBuilder) -> Seq<Seq<char>>;

/// The source contents set on a builder, by source index.
pub uninterp spec fn builder_contents(b: sourcemap::SourceMapBuilder) -> Seq<Option<Seq<char>>>;

/// The names registered with a builder, by index.
pub uninterp spec fn builder_names(b: sourcemap::SourceMapBuilder) -> Seq<Seq<char>>;

/// The generated file a builder was made for.
pub uninterp spec fn builder_file(b: sourcemap::SourceMapBuilder) -> Option<Seq<char>>;

/// The tokens of a map, by index.
pub uninterp spec fn sm_tokens(m: SourceMap) -> Seq<TokenView>;

/// The sources of a map as it reports them, by index.
pub uninterp spec fn sm_sources(m: SourceMap) -> Seq<Seq<char>>;

/// The source contents of a map, by source index.
pub uninterp spec fn sm_contents(m: SourceMap) -> Seq<Option<Seq<char>>>;

/// The names of a map, by index.
pub uninterp spec fn sm_names(m: SourceMap) -> Seq<Seq<char>>;

/// The generated file of a map.
pub uninterp spec fn sm_file(m: SourceMap) -> Option<Seq<char>>;

/// The characters of an optional string slice.
pub open spec fn opt_str_chars(s: Option<&str>) -> Option<Seq<char>> {
    match s {
        Some(t) => Some(t@),
        None => None,
    }
}

/// The characters of an optional string.
pub open spec fn opt_string_chars(s: Option<String>) -> Option<Seq<char>> {
    match s {
        Some(t) => Some(t@),
        None => None,
    }
}

/// The index of `x` in `s`, which holds it once.
pub open spec fn position_of(s: Seq<Seq<char>>, x: Seq<char>) -> int {
    choose|i: int| 0 <= i < s.len() && s[i] == x
}

/// `s` with `x` added unless it is there, and the index of `x`.
pub open spec fn register(s: Seq<Seq<char>>, x: Seq<char>) -> (Seq<Seq<char>>, u32) {
    if s.contains(x) {
        (s, position_of(s, x) as u32)
    } else {
        (s.push(x), s.len() as u32)
    }
}

/// `s` with a registered name, if any, and its index (`u32::MAX` for none).
pub open spec fn register_opt(s: Seq<Seq<char>>, x: Option<Seq<char>>) -> (Seq<Seq<char>>, u32) {
    match x {
        Some(v) => register(s, v),
        None => (s, u32::MAX),
    }
}

/// `c` made at least `n` long with `None`.
pub open spec fn pad_contents(c: Seq<Option<Seq<char>>>, n: int) -> Seq<Option<Seq<char>>> {
    if n > c.len() {
        c + Seq::new((n - c.len()) as nat, |i: int| None::<Seq<char>>)
    } else {
        c
    }
}

/// `c` made exactly `n` long, cut or filled with `None`.
pub open spec fn resize_contents(c: Seq<Option<Seq<char>>>, n: int) -> Seq<Option<Seq<char>>> {
    if n > c.len() {
        pad_contents(c, n)
    } else {
        c.take(n)
    }
}

/// `SourceMapBuilder::new`: a builder for `file` with nothing in it.
#[verifier::external_body]
pub(crate) fn builder_new(file: Option<&str>) -> (res: sourcemap::SourceMapBuilder)
    ensures
        builder_tokens(res) == Seq::<TokenView>::empty(),
        builder_sources(res) == Seq::<Seq<char>>::empty(),
        builder_contents(res) == Seq::<Option<Seq<char>>>::empty(),
        builder_names(res) == Seq::<Seq<char>>::empty(),
        builder_file(res) == opt_str_chars(file),
{
    sourcemap::SourceMapBuilder::new(file)
}

/// `SourceMapBuilder::add_source`: the index of source `src`, registered
/// after the others if it is new.  The sources stay free of repeats.
#[verifier::external_body]
pub(crate) fn builder_add_source(b: &mut sourcemap::SourceMapBuilder, src: &str) -> (res: u32)
    requires
        builder_sources(*old(b)).len() < u32::MAX,
        builder_sources(*old(b)).no_duplicates(),
    ensures
        (builder_sources(*final(b)), res) == register(builder_sources(*old(b)), src@),
        builder_sources(*final(b)).no_duplicates(),
        builder_tokens(*final(b)) == builder_tokens(*old(b)),
        builder_contents(*final(b)) == builder_contents(*old(b)),
        builder_names(*final(b)) == builder_names(*old(b)),
        builder_file(*final(b)) == builder_file(*old(b)),
{
    b.add_source(src)
}

/// `SourceMapBuilder::set_source_contents`: the contents of source `src_id`
/// (the contents made as long as the sources first).  It panics for an index
/// that is not a source's.
#[verifier::external_body]
pub(crate) fn builder_set_source_contents(b: &mut sourcemap::SourceMapBuilder, src_id: u32, contents: Option<&str>)
    requires
        src_id < builder_sources(*old(b)).len(),
    ensures
        builder_contents(*final(b)) == pad_contents(builder_contents(*old(b)), builder_sources(*old(b)).len() as int).update(src_id as int, opt_str_chars(contents)),
        builder_sources(*final(b)) == builder_sources(*old(b)),
        builder_tokens(*final(b)) == builder_tokens(*old(b)),
        builder_names(*final(b)) == builder_names(*old(b)),
        builder_file(*final(b)) == builder_file(*old(b)),
{
    b.set_source_contents(src_id, contents)
}

/// `SourceMapBuilder::add`: registers the token's source and name (each
/// only if new) and adds the token, which it returns.
#[verifier::external_body]
pub(crate) fn builder_add(
    b: &mut sourcemap::SourceMapBuilder,
    dst_line: u32,
    dst_col: u32,
    src_line: u32,
    src_col: u32,
    source: Option<&str>,
    name: Option<&str>,
    is_range: bool,
) -> (res: TokenView)
    requires
        builder_sources(*old(b)).len() < u32::MAX,
        builder_names(*old(b)).len() < u32::MAX,
        builder_sources(*old(b)).no_duplicates(),
        builder_names(*old(b)).no_duplicates(),
    ensures
        (builder_sources(*final(b)), res.src_id) == register_opt(builder_sources(*old(b)), opt_str_chars(source)),
        (builder_names(*final(b)), res.name_id) == register_opt(builder_names(*old(b)), opt_str_chars(name)),
        builder_sources(*final(b)).no_duplicates(),
        builder_names(*final(b)).no_duplicates(),
        res.dst_line == dst_line && res.dst_col == dst_col && res.src_line == src_line,
        res.src_col == src_col && res.is_range == is_range,
        builder_tokens(*final(b)) == builder_tokens(*old(b)).push(res),
        builder_contents(*final(b)) == builder_contents(*old(b)),
        builder_file(*final(b)) == builder_file(*old(b)),
{
    let t = b.add(dst_line, dst_col, src_line, src_col, source, name, is_range);
    TokenView { dst_line: t.dst_line, dst_col: t.dst_col, src_line: t.src_line, src_col: t.src_col, src_id: t.src_id, name_id: t.name_id, is_range: t.is_range }
}

/// `SourceMapBuilder::into_sourcemap`: the map of the builder, with its
/// tokens sorted by generated position (the sort is not stable, so the order
/// of tokens at one position is not stated).
#[verifier::external_body]
pub(crate) fn builder_into_sourcemap(b: sourcemap::SourceMapBuilder) -> (res: SourceMap)
    ensures
        sm_tokens(res).to_multiset() == builder_tokens(b).to_multiset(),
        sorted_by_position(sm_tokens(res)),
        sm_sources(res) == builder_sources(b),
        sm_contents(res) == builder_contents(b),
        sm_names(res) == builder_names(b),
        sm_file(res) == builder_file(b),
{
    SourceMap { inner: b.into_sourcemap() }
}

/// `SourceMap::get_token` and `Token::get_raw_token`: the token at `idx`.
/// The tokens are held in a `Vec`, so there are at most `isize::MAX`.
#[verifier::external_body]
pub(crate) fn sm_get_token(m: &SourceMap, idx: usize) -> (res: Option<TokenView>)
    ensures
        res == (if idx < sm_tokens(*m).len() {
            Some(sm_tokens(*m)[idx as int])
        } else {
            None
        }),
        res is Some ==> sm_tokens(*m).len() <= isize::MAX,
{
    m.inner.get_token(idx).map(|t| {
        let r = t.get_raw_token();
        TokenView { dst_line: r.dst_line, dst_col: r.dst_col, src_line: r.src_line, src_col: r.src_col, src_id: r.src_id, name_id: r.name_id, is_range: r.is_range }
    })
}

/// `SourceMap::get_source`: the source at `idx`, if there is one.
#[verifier::external_body]
pub(crate) fn sm_get_source(m: &SourceMap, idx: u32) -> (res: Option<String>)
    ensures
        opt_string_chars(res) == (if idx < sm_sources(*m).len() {
            Some(sm_sources(*m)[idx as int])
        } else {
            None
        }),
{
    m.inner.get_source(idx).map(|s| s.to_string())
}

/// `SourceMap::get_source_count`: the number of sources, as 32 bits.
#[verifier::external_body]
pub(crate) fn sm_get_source_count(m: &SourceMap) -> (res: u32)
    ensures
        res == sm_sources(*m).len() as u32,
{
    m.inner.get_source_count()
}

/// `SourceMap::get_name`: the name at `idx`, if there is one.
#[verifier::external_body]
pub(crate) fn sm_get_name(m: &SourceMap, idx: u32) -> (res: Option<String>)
    ensures
        opt_string_chars(res) == (if idx < sm_names(*m).len() {
            Some(sm_names(*m)[idx as int])
        } else {
            None
        }),
{
    m.inner.get_name(idx).map(|s| s.to_string())
}

/// `SourceMap::get_source_contents`: the contents of source `idx`, if set.
#[verifier::external_body]
pub(crate) fn sm_get_source_contents(m: &SourceMap, idx: u32) -> (res: Option<String>)
    ensures
        opt_string_chars(res) == (if idx < sm_contents(*m).len() {
            sm_contents(*m)[idx as int]
        } else {
            None
        }),
{
    m.inner.get_source_contents(idx).map(|s| s.to_string())
}

/// `SourceMap::set_source_contents`: the contents (made exactly as long as
/// the sources first) with those of source `idx` set.  It panics for an index
/// that is not a source's.
#[verifier::external_body]
pub(crate) fn sm_set_source_contents(m: &mut SourceMap, idx: u32, value: Option<&str>)
    requires
        idx < sm_sources(*old(m)).len(),
    ensures
        sm_contents(*final(m)) == resize_contents(sm_contents(*old(m)), sm_sources(*old(m)).len() as int).update(idx as int, opt_str_chars(value)),
        sm_tokens(*final(m)) == sm_tokens(*old(m)),
        sm_sources(*final(m)) == sm_sources(*old(m)),
        sm_names(*final(m)) == sm_names(*old(m)),
        sm_file(*final(m)) == sm_file(*old(m)),
{
    m.inner.set_source_contents(idx, value)
}

/// `SourceMap::get_file`: the generated file, if the map names one.
#[verifier::external_body]
pub(crate) fn sm_get_file(m: &SourceMap) -> (res: Option<String>)
    ensures
        opt_string_chars(res) == sm_file(*m),
{
    m.inner.get_file().map(|s| s.to_string())
}

/// Whether the generated position of `t` is before line `line`, column `col`.
pub open spec fn position_before(t: TokenView, line: u32, col: u32) -> bool {
    t.dst_line < line || (t.dst_line == line && t.dst_col < col)
}

/// Whether the generated position of `t` is line `line`, column `col`.
pub open spec fn position_at(t: TokenView, line: u32, col: u32) -> bool {
    t.dst_line == line && t.dst_col == col
}

/// The index of the token that a lookup of `line`, `col` finds in tokens in
/// order of position: the first at that position, or else the last before
/// it.
pub open spec fn lookup_index(ts: Seq<TokenView>, line: u32, col: u32) -> Option<int> {
    if exists|i: int| 0 <= i < ts.len() && position_at(ts[i], line, col) {
        Some(choose|i: int| 0 <= i < ts.len() && position_at(ts[i], line, col) && forall|j: int| 0 <= j < i ==> !position_at(ts[j], line, col))
    } else if exists|i: int| 0 <= i < ts.len() && position_before(ts[i], line, col) {
        Some(choose|i: int| 0 <= i < ts.len() && position_before(ts[i], line, col) && forall|j: int| i < j < ts.len() ==> !position_before(ts[j], line, col))
    } else {
        None
    }
}

/// The token a lookup finds, with the original column of a range token
/// moved along by how far `col` is into it (saturating).
pub open spec fn looked_up(t: TokenView, col: u32) -> TokenView {
    if t.is_range {
        TokenView {
            src_col: if t.src_col + (col - t.dst_col) > u32::MAX { u32::MAX } else { (t.src_col + (col - t.dst_col)) as u32 },
            ..t
        }
    } else {
        t
    }
}

/// `SourceMap::lookup_token`, read as [`looked_up`] reads it: the token found
/// for `line`, `col` on tokens in order of position.  For a range token the
/// crate takes `col` minus the token's column, which panics below it.
#[verifier::external_body]
pub(crate) fn sm_lookup_token(m: &SourceMap, line: u32, col: u32) -> (res: Option<TokenView>)
    requires
        sorted_by_position(sm_tokens(*m)),
        lookup_index(sm_tokens(*m), line, col) matches Some(i) ==> (sm_tokens(*m)[i].is_range ==> col >= sm_tokens(*m)[i].dst_col),
    ensures
        res == (match lookup_index(sm_tokens(*m), line, col) {
            Some(i) => Some(looked_up(sm_tokens(*m)[i], col)),
            None => None,
        }),
{
    m.inner.lookup_token(line, col).map(|t| {
        let r = t.get_raw_token();
        TokenView { dst_line: r.dst_line, dst_col: r.dst_col, src_line: r.src_line, src_col: t.get_src_col(), src_id: r.src_id, name_id: r.name_id, is_range: r.is_range }
    })
}

/// What `SourceMap::from_slice` reads from JSON bytes: the tokens, sources,
/// contents, names and file of the map, or the text of the error.
pub uninterp spec fn json_map(bytes: Seq<u8>) -> Result<(Seq<TokenView>, Seq<Seq<char>>, Seq<Option<Seq<char>>>, Seq<Seq<char>>, Option<Seq<char>>), Seq<char>>;

/// The parts of a map that `json_map` names.
pub open spec fn map_parts(m: SourceMap) -> (Seq<TokenView>, Seq<Seq<char>>, Seq<Option<Seq<char>>>, Seq<Seq<char>>, Option<Seq<char>>) {
    (sm_tokens(m), sm_sources(m), sm_contents(m), sm_names(m), sm_file(m))
}

/// `SourceMap::from_slice`: a map read from JSON, or the text of the error,
/// as `json_map` names them; the tokens of a map read are in order of
/// position, as the crate sorts them when it builds the map.
#[verifier::external_body]
pub(crate) fn sm_from_slice(slice: &[u8]) -> (res: Result<SourceMap, String>)
    ensures
        match res {
            Ok(m) => json_map(slice@) == Ok::<_, Seq<char>>(map_parts(m)),
            Err(e) => json_map(slice@) == Err::<(Seq<TokenView>, Seq<Seq<char>>, Seq<Option<Seq<char>>>, Seq<Seq<char>>, Option<Seq<char>>), Seq<char>>(e@),
        },
        res matches Ok(m) ==> sorted_by_position(sm_tokens(m)),
{
    match sourcemap::SourceMap::from_slice(slice) {
        Ok(m) => Ok(SourceMap { inner: m }),
        Err(e) => Err(e.to_string()),
    }
}

/// The JSON text that the crate writes for a map, if writing succeeds.
pub uninterp spec fn map_json(m: SourceMap) -> Option<Seq<char>>;

/// `SourceMap::to_writer` into bytes, read as UTF-8: the map as JSON, or
/// nothing where writing fails.  The text is a function of the map alone,
/// named [`map_json`]; what it holds is not stated.
#[verifier::external_body]
pub(crate) fn sm_to_json(m: &SourceMap) -> (res: Option<String>)
    ensures
        opt_string_chars(res) == map_json(*m),
{
    let mut w: Vec<u8> = Vec::new();
    match m.inner.to_writer(&mut w) {
        Ok(()) => String::from_utf8(w).ok(),
        Err(_) => None,
    }
}


/// `SourceMap::clone` (derived): a copy that holds the same.
#[verifier::external_body]
pub(crate) fn sm_clone(m: &SourceMap) -> (res: SourceMap)
    ensures
        sm_tokens(res) == sm_tokens(*m),
        sm_sources(res) == sm_sources(*m),
        sm_contents(res) == sm_contents(*m),
        sm_names(res) == sm_names(*m),
        sm_file(res) == sm_file(*m),
{
    SourceMap { inner: m.inner.clone() }
}


impl Clone for SourceMap {
    /// A copy that holds the same tokens, sources, contents, names and file.
    fn clone(&self) -> (res: Self)
        ensures
            sm_tokens(res) == sm_tokens(*self),
            sm_sources(res) == sm_sources(*self),
            sm_contents(res) == sm_contents(*self),
            sm_names(res) == sm_names(*self),
            sm_file(res) == sm_file(*self),
    {
        sm_clone(self)
    }
}

impl SourceMap {
    /// The map read from JSON `slice`, or the reader's error text (see
    /// `json_map`); the tokens of a map read are in order of position.
    pub fn from_slice(slice: &[u8]) -> (res: Result<SourceMap, String>)
        ensures
            match res {
                Ok(m) => json_map(slice@) == Ok::<_, Seq<char>>(map_parts(m)),
                Err(e) => json_map(slice@) == Err::<(Seq<TokenView>, Seq<Seq<char>>, Seq<Option<Seq<char>>>, Seq<Seq<char>>, Option<Seq<char>>), Seq<char>>(e@),
            },
            res matches Ok(m) ==> sorted_by_position(sm_tokens(m)),
    {
        sm_from_slice(slice)
    }

    /// The map as JSON, as the crate writes it.
    pub fn to_json(&self) -> (res: Option<String>)
        ensures
            opt_string_chars(res) == map_json(*self),
    {
        sm_to_json(self)
    }

    /// The tokens, in order.
    pub fn tokens(&self) -> (res: Vec<TokenView>)
        ensures
            res@ == sm_tokens(*self),
    {
        let mut res: Vec<TokenView> = Vec::new();
        let mut idx: usize = 0;
        let mut done = false;
        while !done
            invariant
                idx <= sm_tokens(*self).len(),
                done ==> idx == sm_tokens(*self).len(),
                res@ == sm_tokens(*self).take(idx as int),
            decreases sm_tokens(*self).len() + 1 - idx - (if done { 1int } else { 0int }),
        {
            match sm_get_token(self, idx) {
                None => {
                    done = true;
                },
                Some(t) => {
                    res.push(t);
                    idx = idx + 1;
                    assert(res@ =~= sm_tokens(*self).take(idx as int));
                },
            }
        }
        assert(sm_tokens(*self).take(idx as int) =~= sm_tokens(*self));
        res
    }

    /// The sources, in order, read while the index stays within 32 bits.
    pub fn sources(&self) -> (res: Vec<String>)
        requires
            sm_sources(*self).len() < u32::MAX,
        ensures
            res@.map_values(|s: String| s@) == sm_sources(*self),
    {
        let mut res: Vec<String> = Vec::new();
        let mut idx: u32 = 0;
        let mut done = false;
        while !done
            invariant
                idx <= sm_sources(*self).len(),
                sm_sources(*self).len() < u32::MAX,
                done ==> idx == sm_sources(*self).len(),
                res@.map_values(|s: String| s@) == sm_sources(*self).take(idx as int),
            decreases sm_sources(*self).len() + 1 - idx - (if done { 1int } else { 0int }),
        {
            match sm_get_source(self, idx) {
                None => {
                    done = true;
                },
                Some(t) => {
                    assert(t@ == sm_sources(*self)[idx as int]);
                    let ghost before = res@;
                    res.push(t);
                    assert(res@ == before.push(t));
                    assert(res@.map_values(|s: String| s@) =~= before.map_values(|s: String| s@).push(t@));
                    idx = idx + 1;
                    assert(res@.map_values(|s: String| s@) =~= sm_sources(*self).take(idx as int));
                },
            }
        }
        assert(sm_sources(*self).take(idx as int) =~= sm_sources(*self));
        res
    }

    /// The contents of each source, in order of the sources.
    pub fn source_contents(&self) -> (res: Vec<Option<String>>)
        ensures
            res@.len() == (sm_sources(*self).len() as u32) as int,
            forall|i: int| 0 <= i < res@.len() ==> opt_string_chars(#[trigger] res@[i]) == (if i < sm_contents(*self).len() {
                sm_contents(*self)[i]
            } else {
                None
            }),
    {
        let count = sm_get_source_count(self);
        let mut res: Vec<Option<String>> = Vec::new();
        let mut idx: u32 = 0;
        while idx < count
            invariant
                idx <= count,
                count == sm_sources(*self).len() as u32,
                res@.len() == idx,
                forall|i: int| 0 <= i < res@.len() ==> opt_string_chars(#[trigger] res@[i]) == (if i < sm_contents(*self).len() {
                    sm_contents(*self)[i]
                } else {
                    None
                }),
            decreases count - idx,
        {
            let c = sm_get_source_contents(self, idx);
            res.push(c);
            idx = idx + 1;
        }
        res
    }

    /// The names, in order, read while the index stays within 32 bits.
    pub fn names(&self) -> (res: Vec<String>)
        requires
            sm_names(*self).len() < u32::MAX,
        ensures
            res@.map_values(|s: String| s@) == sm_names(*self),
    {
        let mut res: Vec<String> = Vec::new();
        let mut idx: u32 = 0;
        let mut done = false;
        while !done
            invariant
                idx <= sm_names(*self).len(),
                sm_names(*self).len() < u32::MAX,
                done ==> idx == sm_names(*self).len(),
                res@.map_values(|s: String| s@) == sm_names(*self).take(idx as int),
            decreases sm_names(*self).len() + 1 - idx - (if done { 1int } else { 0int }),
        {
            match sm_get_name(self, idx) {
                None => {
                    done = true;
                },
                Some(t) => {
                    assert(t@ == sm_names(*self)[idx as int]);
                    let ghost before = res@;
                    res.push(t);
                    assert(res@ == before.push(t));
                    assert(res@.map_values(|s: String| s@) =~= before.map_values(|s: String| s@).push(t@));
                    idx = idx + 1;
                    assert(res@.map_values(|s: String| s@) =~= sm_names(*self).take(idx as int));
                },
            }
        }
        assert(sm_names(*self).take(idx as int) =~= sm_names(*self));
        res
    }

    /// The generated file, if the map names one.
    pub fn get_file(&self) -> (res: Option<String>)
        ensures
            opt_string_chars(res) == sm_file(*self),
    {
        sm_get_file(self)
    }

    /// The token a lookup of line `line`, column `col` finds, as
    /// [`lookup_index`] and [`looked_up`] describe it.
    pub fn lookup_token(&self, line: u32, col: u32) -> (res: Option<TokenView>)
        requires
            sorted_by_position(sm_tokens(*self)),
            lookup_index(sm_tokens(*self), line, col) matches Some(i) ==> (sm_tokens(*self)[i].is_range ==> col
                >= sm_tokens(*self)[i].dst_col),
        ensures
            res == (match lookup_index(sm_tokens(*self), line, col) {
                Some(i) => Some(looked_up(sm_tokens(*self)[i], col)),
                None => None,
            }),
    {
        sm_lookup_token(self, line, col)
    }
}

} // verus!
