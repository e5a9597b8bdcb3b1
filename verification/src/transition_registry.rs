//! The registry of transition shaders: the header metadata of each shader,
//! display names, and the ordered, searchable list of transitions.
use vstd::prelude::*;
use vstd::std_specs::hash::DefaultHasherAdditionalSpecFns;
use vstd::utf8::encode_utf8;
use std::collections::hash_map::DefaultHasher;
use std::hash::Hasher;
use crate::transition::TRANSITION_CUT;
use crate::text::{
    title_case, title_case_spec,
    char_to_uppercase, chars_of, lines, lines_of, lowercase, split_chars, split_on,
    str_to_lowercase, string_of, strip_leading, strip_leading_chars, starts_with, has_prefix,
    trim_chars, trimmed, uppercase_char, words, words_of, chars_from, push_char, float_literal,
    is_float_literal,
    lemma_split_nonempty,
};

verus! {

broadcast use vstd::string::group_string_axioms;

/// Which color uniforms a transition shader exposes to the user.
#[derive(Debug, Clone, Copy, PartialEq, Eq, Structural)]
pub enum TransitionParam {
    Color,
    FromColor,
    ToColor,
}

/// Definition of a single numeric parameter exposed by a transition shader.
/// The numbers are kept as written in the header; each is a decimal number
/// literal (see `float_literal`).
#[derive(Debug, Clone)]
pub struct TransitionParamDef {
    pub name: String,
    pub default: String,
    pub min: String,
    pub max: String,
}

/// The value of a parameter definition.
pub struct ParamDefView {
    pub name: Seq<char>,
    pub default: Seq<char>,
    pub min: Seq<char>,
    pub max: Seq<char>,
}

impl View for TransitionParamDef {
    type V = ParamDefView;

    open spec fn view(&self) -> ParamDefView {
        ParamDefView { name: self.name@, default: self.default@, min: self.min@, max: self.max@ }
    }
}

/// The metadata found in a shader's header comments.
pub struct Header {
    pub name: Seq<char>,
    pub author: Seq<char>,
    pub description: Seq<char>,
    pub params: Seq<TransitionParam>,
    pub shader_params: Seq<ParamDefView>,
}

pub open spec fn empty_header() -> Header {
    Header {
        name: Seq::empty(),
        author: Seq::empty(),
        description: Seq::empty(),
        params: Seq::empty(),
        shader_params: Seq::empty(),
    }
}

/// The color uniform that a (trimmed) `@params` entry names, if any.
pub open spec fn color_param(w: Seq<char>) -> Option<TransitionParam> {
    if w == "color"@ {
        Some(TransitionParam::Color)
    } else if w == "from_color"@ {
        Some(TransitionParam::FromColor)
    } else if w == "to_color"@ {
        Some(TransitionParam::ToColor)
    } else {
        None
    }
}

/// The color uniforms named by the entries, in order; unknown entries are skipped.
pub open spec fn color_params(entries: Seq<Seq<char>>) -> Seq<TransitionParam>
    decreases entries.len(),
{
    if entries.len() == 0 {
        Seq::empty()
    } else {
        let r = color_params(entries.drop_last());
        match color_param(trimmed(entries.last())) {
            Some(p) => r.push(p),
            None => r,
        }
    }
}

/// A `@param` value: a name and three numbers (default, min, max), separated
/// by white space; anything after them is ignored. `None` when there are
/// fewer than four words or a number is not a decimal number literal.
pub open spec fn param_def(value: Seq<char>) -> Option<ParamDefView> {
    let parts = words(trimmed(value));
    if parts.len() >= 4 && float_literal(parts[1]) && float_literal(parts[2]) && float_literal(
        parts[3],
    ) {
        Some(ParamDefView { name: parts[0], default: parts[1], min: parts[2], max: parts[3] })
    } else {
        None
    }
}

/// The effect of one comment line (its text after `//`) on the header.
pub open spec fn header_step(h: Header, body: Seq<char>) -> Header {
    if has_prefix(body, "@name:"@) {
        Header { name: trimmed(body.skip("@name:"@.len() as int)), ..h }
    } else if has_prefix(body, "@author:"@) {
        Header { author: trimmed(body.skip("@author:"@.len() as int)), ..h }
    } else if has_prefix(body, "@description:"@) {
        Header { description: trimmed(body.skip("@description:"@.len() as int)), ..h }
    } else if has_prefix(body, "@params:"@) {
        Header { params: color_params(split_on(body.skip("@params:"@.len() as int), ',')), ..h }
    } else if has_prefix(body, "@param:"@) {
        match param_def(body.skip("@param:"@.len() as int)) {
            Some(d) => Header { shader_params: h.shader_params.push(d), ..h },
            None => h,
        }
    } else {
        h
    }
}

/// The text of a comment line after its leading `//` marks.
pub open spec fn comment_body(t: Seq<char>) -> Seq<char> {
    trimmed(strip_leading(t, "//"@))
}

/// The header read from the lines: blank lines are skipped, comment lines
/// are read, and reading stops at the first other line.
pub open spec fn header_from(ls: Seq<Seq<char>>, h: Header) -> Header
    decreases ls.len(),
{
    if ls.len() == 0 {
        h
    } else {
        let t = trimmed(ls[0]);
        if t.len() == 0 {
            header_from(ls.drop_first(), h)
        } else if !has_prefix(t, "//"@) {
            h
        } else {
            header_from(ls.drop_first(), header_step(h, comment_body(t)))
        }
    }
}

pub open spec fn parse_header_spec(source: Seq<char>) -> Header {
    header_from(lines(source), empty_header())
}

fn text_is(w: &[char], lit: &str) -> (r: bool)
    ensures
        r == (w@ == lit@),
{
    string_of(w) == lit.to_string()
}

fn parse_color_params(value: &[char]) -> (ps: Vec<TransitionParam>)
    ensures
        ps@ == color_params(split_on(value@, ',')),
{
    let entries = split_chars(value, ',');
    let ghost es = split_on(value@, ',');
    let mut out: Vec<TransitionParam> = Vec::new();
    let n = entries.len();
    let mut i: usize = 0;
    assert(es.take(0) =~= Seq::<Seq<char>>::empty());
    while i < n
        invariant
            i <= n == entries@.len() == es.len(),
            entries.deep_view() == es,
            out@ == color_params(es.take(i as int)),
        decreases n - i,
    {
        assert(entries.deep_view()[i as int] == entries@[i as int].deep_view());
        assert(entries@[i as int].deep_view() =~= entries@[i as int]@);
        assert(es.take(i + 1).drop_last() =~= es.take(i as int));
        let w = trim_chars(entries[i].as_slice());
        if text_is(w.as_slice(), "color") {
            out.push(TransitionParam::Color);
        } else if text_is(w.as_slice(), "from_color") {
            out.push(TransitionParam::FromColor);
        } else if text_is(w.as_slice(), "to_color") {
            out.push(TransitionParam::ToColor);
        }
        i += 1;
    }
    assert(es.take(n as int) =~= es);
    out
}

fn parse_param_def(value: &[char]) -> (d: Option<TransitionParamDef>)
    ensures
        match d {
            Some(x) => param_def(value@) == Some(x@),
            None => param_def(value@) is None,
        },
{
    let t = trim_chars(value);
    let parts = words_of(t.as_slice());
    if parts.len() < 4 {
        return None;
    }
    proof {
        assert forall|k: int| 0 <= k < parts@.len() implies #[trigger] parts.deep_view()[k] == parts@[k]@ by {
            assert(parts@[k].deep_view() =~= parts@[k]@);
        }
    }
    let name = string_of(parts[0].as_slice());
    let default = string_of(parts[1].as_slice());
    let min = string_of(parts[2].as_slice());
    let max = string_of(parts[3].as_slice());
    if is_float_literal(parts[1].as_slice()) && is_float_literal(parts[2].as_slice())
        && is_float_literal(parts[3].as_slice()) {
        Some(TransitionParamDef { name, default, min, max })
    } else {
        None
    }
}

/// Parse `// @key: value` metadata from the top of a WGSL source string.
/// Parsing stops at the first non-comment, non-blank line.
///
/// Supports both `@params:` (color uniforms, comma-separated) and
/// `@param:` (numeric parameters, `name default min max` per line).
pub fn parse_header(source: &str) -> (r: (
    String,
    String,
    String,
    Vec<TransitionParam>,
    Vec<TransitionParamDef>,
))
    ensures
        ({
            let h = parse_header_spec(source@);
            &&& r.0@ == h.name
            &&& r.1@ == h.author
            &&& r.2@ == h.description
            &&& r.3@ == h.params
            &&& r.4@.map_values(|d: TransitionParamDef| d@) == h.shader_params
        }),
{
    proof {
        reveal_strlit("@name:");
        reveal_strlit("@author:");
        reveal_strlit("@description:");
        reveal_strlit("@params:");
        reveal_strlit("@param:");
        reveal_strlit("//");
    }
    let mut name = String::new();
    let mut author = String::new();
    let mut description = String::new();
    let mut params: Vec<TransitionParam> = Vec::new();
    let mut shader_params: Vec<TransitionParamDef> = Vec::new();
    let ls = lines_of(chars_of(source).as_slice());
    let ghost all = lines(source@);
    let n = ls.len();
    let mut i: usize = 0;
    let slashes = chars_of("//");
    assert(all.skip(0) =~= all);
    assert(params@ =~= Seq::<TransitionParam>::empty());
    assert(shader_params@.map_values(|d: TransitionParamDef| d@) =~= Seq::<ParamDefView>::empty());
    while i < n
        invariant
            i <= n == ls@.len() == all.len(),
            ls.deep_view() == all,
            slashes@ == "//"@,
            "//"@.len() == 2,
            "@name:"@.len() == 6,
            "@author:"@.len() == 8,
            "@description:"@.len() == 13,
            "@params:"@.len() == 8,
            "@param:"@.len() == 7,
            header_from(all, empty_header()) == header_from(
                all.skip(i as int),
                Header {
                    name: name@,
                    author: author@,
                    description: description@,
                    params: params@,
                    shader_params: shader_params@.map_values(|d: TransitionParamDef| d@),
                },
            ),
        ensures
            header_from(all, empty_header()) == (Header {
                name: name@,
                author: author@,
                description: description@,
                params: params@,
                shader_params: shader_params@.map_values(|d: TransitionParamDef| d@),
            }),
        decreases n - i,
    {
        let ghost h = Header {
            name: name@,
            author: author@,
            description: description@,
            params: params@,
            shader_params: shader_params@.map_values(|d: TransitionParamDef| d@),
        };
        let ghost rest = all.skip(i as int);
        assert(ls.deep_view()[i as int] == ls@[i as int].deep_view());
        assert(ls@[i as int].deep_view() =~= ls@[i as int]@);
        assert(rest[0] == ls@[i as int]@);
        assert(rest.drop_first() =~= all.skip(i + 1));
        let t = trim_chars(ls[i].as_slice());
        if t.len() == 0 {
            i += 1;
            continue;
        }
        if !starts_with(t.as_slice(), slashes.as_slice()) {
            assert(header_from(rest, h) == h);
            break;
        }
        let body = trim_chars(strip_leading_chars(t.as_slice(), slashes.as_slice()).as_slice());
        assert(body@ == comment_body(t@));
        if starts_with(body.as_slice(), chars_of("@name:").as_slice()) {
            name = string_of(trim_chars(chars_from(body.as_slice(), 6).as_slice()).as_slice());
        } else if starts_with(body.as_slice(), chars_of("@author:").as_slice()) {
            author = string_of(trim_chars(chars_from(body.as_slice(), 8).as_slice()).as_slice());
        } else if starts_with(body.as_slice(), chars_of("@description:").as_slice()) {
            description = string_of(
                trim_chars(chars_from(body.as_slice(), 13).as_slice()).as_slice(),
            );
        } else if starts_with(body.as_slice(), chars_of("@params:").as_slice()) {
            params = parse_color_params(chars_from(body.as_slice(), 8).as_slice());
        } else if starts_with(body.as_slice(), chars_of("@param:").as_slice()) {
            match parse_param_def(chars_from(body.as_slice(), 7).as_slice()) {
                Some(d) => {
                    let ghost before = shader_params@;
                    shader_params.push(d);
                    assert(shader_params@.map_values(|d: TransitionParamDef| d@) =~= before.map_values(
                        |d: TransitionParamDef| d@,
                    ).push(d@));
                },
                None => {},
            }
        }
        assert(header_from(rest, h) == header_from(rest.drop_first(), header_step(h, body@)));
        i += 1;
    }
    proof {
        if i == n {
            assert(all.skip(n as int) =~= Seq::<Seq<char>>::empty());
        }
    }
    (name, author, description, params, shader_params)
}


// ── Transition definitions ──────────────────────────────────────────────────

/// Convert a file stem like "radial_wipe" to "Radial Wipe".
pub fn title_case_stem(stem: &str) -> (r: String)
    ensures
        r@ == title_case_spec(stem@, true),
{
    title_case(stem, true)
}

/// Parsed definition of a single transition shader.
#[derive(Debug, Clone)]
pub struct TransitionDef {
    /// Unique ID derived from the file stem (e.g. "fade", "dip_to_color").
    pub id: String,
    /// Display name from `@name` header, or title-cased file stem.
    pub name: String,
    /// Author from `@author` header, or empty.
    pub author: String,
    /// Description from `@description` header, or empty.
    pub description: String,
    /// Which color uniforms to expose in the UI, from `@params` header.
    pub params: Vec<TransitionParam>,
    /// Numeric parameters exposed by the shader, from `@param` headers.
    pub shader_params: Vec<TransitionParamDef>,
    /// Raw WGSL shader source.
    pub shader_source: String,
}

/// The value of a transition definition.
pub struct TransitionView {
    pub id: Seq<char>,
    pub name: Seq<char>,
    pub author: Seq<char>,
    pub description: Seq<char>,
    pub params: Seq<TransitionParam>,
    pub shader_params: Seq<ParamDefView>,
    pub source: Seq<char>,
}

impl View for TransitionDef {
    type V = TransitionView;

    open spec fn view(&self) -> TransitionView {
        TransitionView {
            id: self.id@,
            name: self.name@,
            author: self.author@,
            description: self.description@,
            params: self.params@,
            shader_params: self.shader_params@.map_values(|d: TransitionParamDef| d@),
            source: self.shader_source@,
        }
    }
}

pub open spec fn defs_view(v: Seq<TransitionDef>) -> Seq<TransitionView> {
    v.map_values(|t: TransitionDef| t@)
}

/// The synthetic "cut" transition: an instant switch without a shader.
pub open spec fn cut_def() -> TransitionView {
    TransitionView {
        id: "cut"@,
        name: "Cut"@,
        author: Seq::empty(),
        description: "Instant scene switch"@,
        params: Seq::empty(),
        shader_params: Seq::empty(),
        source: Seq::empty(),
    }
}

/// The definition of the shader with file stem `stem` and text `source`:
/// its name is the `@name` header, or the title-cased stem when that is empty.
pub open spec fn shader_def(stem: Seq<char>, source: Seq<char>) -> TransitionView {
    let h = parse_header_spec(source);
    TransitionView {
        id: stem,
        name: if h.name.len() == 0 {
            title_case_spec(stem, true)
        } else {
            h.name
        },
        author: h.author,
        description: h.description,
        params: h.params,
        shader_params: h.shader_params,
        source,
    }
}

/// `a` comes no later than `b` in the order of `String` comparison
/// (character by character, a prefix first).
pub open spec fn text_le(a: Seq<char>, b: Seq<char>) -> bool
    decreases a.len(),
{
    if a.len() == 0 {
        true
    } else if b.len() == 0 {
        false
    } else if a[0] != b[0] {
        (a[0] as int) < (b[0] as int)
    } else {
        text_le(a.drop_first(), b.drop_first())
    }
}

/// The key by which shader transitions are ordered: the lower-cased name.
pub open spec fn sort_key(t: TransitionView) -> Seq<char> {
    lowercase(t.name)
}

/// `x` placed after every element whose key is no greater than its own.
pub open spec fn insert_sorted(s: Seq<TransitionView>, x: TransitionView) -> Seq<TransitionView>
    decreases s.len(),
{
    if s.len() == 0 {
        seq![x]
    } else if text_le(sort_key(s.last()), sort_key(x)) {
        s.push(x)
    } else {
        insert_sorted(s.drop_last(), x).push(s.last())
    }
}

/// The definitions ordered by key; definitions with equal keys keep their order.
pub open spec fn sorted_defs(s: Seq<TransitionView>) -> Seq<TransitionView>
    decreases s.len(),
{
    if s.len() == 0 {
        s
    } else {
        insert_sorted(sorted_defs(s.drop_last()), s.last())
    }
}

/// The definitions of shader files (stem and text), in the order given.
pub open spec fn shader_defs(files: Seq<(Seq<char>, Seq<char>)>) -> Seq<TransitionView> {
    files.map_values(|f: (Seq<char>, Seq<char>)| shader_def(f.0, f.1))
}

/// What a registry built from shader files holds: "cut" first, then the
/// shader transitions ordered by lower-cased name.
pub open spec fn registry_defs(files: Seq<(Seq<char>, Seq<char>)>) -> Seq<TransitionView> {
    seq![cut_def()] + sorted_defs(shader_defs(files))
}

pub open spec fn files_view(files: Seq<(String, String)>) -> Seq<(Seq<char>, Seq<char>)> {
    files.map_values(|f: (String, String)| (f.0@, f.1@))
}

/// The little-endian bytes of the low `k` bytes of `n`.
pub open spec fn le_bytes(n: nat, k: nat) -> Seq<u8>
    decreases k,
{
    if k == 0 {
        Seq::empty()
    } else {
        seq![(n % 256) as u8] + le_bytes(n / 256, (k - 1) as nat)
    }
}

/// What the fingerprint hashes for each transition: its id and its source
/// text as strings are hashed (bytes, then 0xff), with the source's byte
/// length (eight little-endian bytes) in between.
pub open spec fn fingerprint_writes(defs: Seq<TransitionView>) -> Seq<Seq<u8>>
    decreases defs.len(),
{
    if defs.len() == 0 {
        Seq::empty()
    } else {
        let t = defs.last();
        let src = encode_utf8(t.source);
        fingerprint_writes(defs.drop_last()) + seq![
            encode_utf8(t.id),
            seq![0xffu8],
            le_bytes(src.len(), 8),
            src,
            seq![0xffu8],
        ]
    }
}

pub open spec fn fingerprint_of(defs: Seq<TransitionView>) -> u64 {
    DefaultHasher::spec_finish(fingerprint_writes(defs))
}

/// The last definition with identifier `id`.
pub open spec fn last_with_id(defs: Seq<TransitionView>, id: Seq<char>) -> Option<TransitionView>
    decreases defs.len(),
{
    if defs.len() == 0 {
        None
    } else if defs.last().id == id {
        Some(defs.last())
    } else {
        last_with_id(defs.drop_last(), id)
    }
}

/// Registry of available transition shaders.
#[derive(Debug)]
pub struct TransitionRegistry {
    transitions: Vec<TransitionDef>,
    /// Fingerprint of the ids and shader sources, for change detection.
    fingerprint: u64,
}

impl View for TransitionRegistry {
    type V = Seq<TransitionView>;

    closed spec fn view(&self) -> Seq<TransitionView> {
        defs_view(self.transitions@)
    }
}

impl TransitionRegistry {
    #[verifier::type_invariant]
    closed spec fn fingerprint_matches(&self) -> bool {
        self.fingerprint == fingerprint_of(defs_view(self.transitions@))
    }

    fn cut() -> (t: TransitionDef)
        ensures
            t@ == cut_def(),
    {
        let t = TransitionDef {
            id: TRANSITION_CUT.to_string(),
            name: "Cut".to_string(),
            author: String::new(),
            description: "Instant scene switch".to_string(),
            params: Vec::new(),
            shader_params: Vec::new(),
            shader_source: String::new(),
        };
        assert(t.params@ =~= Seq::<TransitionParam>::empty());
        assert(t.shader_params@.map_values(|d: TransitionParamDef| d@) =~= Seq::<ParamDefView>::empty());
        t
    }

    /// Create an empty registry with just the synthetic "cut" entry.
    pub fn empty() -> (r: Self)
        ensures
            r@ == seq![cut_def()],
    {
        let mut v: Vec<TransitionDef> = Vec::new();
        v.push(Self::cut());
        assert(defs_view(v@) =~= seq![cut_def()]);
        Self::from_transitions(v)
    }

    fn from_transitions(transitions: Vec<TransitionDef>) -> (r: Self)
        ensures
            r@ == defs_view(transitions@),
    {
        let fingerprint = compute_fingerprint(&transitions);
        TransitionRegistry { transitions, fingerprint }
    }

    /// The registry of the given shader files (file stem and text, in the
    /// order the directory listed them). Always includes the synthetic "cut"
    /// entry first; the shaders follow ordered by lower-cased name.
    pub fn from_shader_files(files: Vec<(String, String)>) -> (r: Self)
        ensures
            r@ == registry_defs(files_view(files@)),
    {
        let defs = build_defs(&files);
        let sorted = sort_defs(defs);
        let mut transitions: Vec<TransitionDef> = Vec::new();
        transitions.push(Self::cut());
        let ghost head = transitions@;
        let ghost tail = sorted@;
        let mut sorted = sorted;
        transitions.append(&mut sorted);
        assert(defs_view(transitions@) =~= seq![cut_def()] + defs_view(tail));
        Self::from_transitions(transitions)
    }

    /// Rebuild from the shader files now present. Returns true, and takes
    /// the new contents, if the fingerprint changed.
    pub fn rescan_from(&mut self, files: Vec<(String, String)>) -> (changed: bool)
        ensures
            changed == (fingerprint_of(registry_defs(files_view(files@))) != fingerprint_of(old(self)@)),
            final(self)@ == if changed {
                registry_defs(files_view(files@))
            } else {
                old(self)@
            },
    {
        proof {
            use_type_invariant(&*self);
        }
        let new = Self::from_shader_files(files);
        proof {
            use_type_invariant(&new);
        }
        if new.fingerprint != self.fingerprint {
            *self = new;
            true
        } else {
            false
        }
    }

    /// Look up a transition by ID (the last one with that ID).
    pub fn get(&self, id: &str) -> (r: Option<&TransitionDef>)
        ensures
            match r {
                Some(t) => last_with_id(self@, id@) == Some(t@),
                None => last_with_id(self@, id@) is None,
            },
    {
        let key = id.to_string();
        let mut i = self.transitions.len();
        let ghost all = defs_view(self.transitions@);
        assert(all.take(i as int) =~= all);
        while i > 0
            invariant
                i <= self.transitions@.len(),
                all == defs_view(self.transitions@),
                key@ == id@,
                last_with_id(all, id@) == last_with_id(all.take(i as int), id@),
            decreases i,
        {
            assert(all.take(i as int).drop_last() =~= all.take(i - 1));
            assert(all.take(i as int).last() == self.transitions@[i - 1]@);
            if self.transitions[i - 1].id == key {
                return Some(&self.transitions[i - 1]);
            }
            i -= 1;
        }
        None
    }

    /// All available transitions, in order (Cut first, then alphabetical).
    pub fn all(&self) -> (r: &[TransitionDef])
        ensures
            defs_view(r@) == self@,
    {
        self.transitions.as_slice()
    }
}

fn le_bytes_of(n: u64) -> (b: Vec<u8>)
    ensures
        b@ == le_bytes(n as nat, 8),
{
    let mut out: Vec<u8> = Vec::new();
    let mut m = n;
    let mut k: usize = 0;
    assert(le_bytes(n as nat, 8) == Seq::<u8>::empty() + le_bytes(m as nat, 8));
    while k < 8
        invariant
            k <= 8,
            out@ + le_bytes(m as nat, (8 - k) as nat) == le_bytes(n as nat, 8),
        decreases 8 - k,
    {
        let ghost before = out@;
        assert(le_bytes(m as nat, (8 - k) as nat) == seq![(m % 256) as u8] + le_bytes(
            (m / 256) as nat,
            (8 - k - 1) as nat,
        ));
        out.push((m % 256) as u8);
        assert(out@ + le_bytes((m / 256) as nat, (8 - k - 1) as nat) =~= before + (seq![
            (m % 256) as u8,
        ] + le_bytes((m / 256) as nat, (8 - k - 1) as nat)));
        m = m / 256;
        k += 1;
    }
    assert(out@ + Seq::<u8>::empty() =~= out@);
    out
}

/// Fingerprint of the ids and shader sources, for change detection.
fn compute_fingerprint(transitions: &Vec<TransitionDef>) -> (f: u64)
    ensures
        f == fingerprint_of(defs_view(transitions@)),
{
    let mut hasher = DefaultHasher::new();
    let n = transitions.len();
    let mut i: usize = 0;
    let ghost all = defs_view(transitions@);
    let sep: [u8; 1] = [0xff];
    assert(sep@ =~= seq![0xffu8]);
    while i < n
        invariant
            i <= n == transitions@.len(),
            all == defs_view(transitions@),
            sep@ == seq![0xffu8],
            hasher@ == fingerprint_writes(all.take(i as int)),
        decreases n - i,
    {
        let t = &transitions[i];
        let ghost before = hasher@;
        assert(all.take(i + 1).drop_last() =~= all.take(i as int));
        assert(all.take(i + 1).last() == t@);
        hasher.write(t.id.as_str().as_bytes());
        hasher.write(&sep);
        let src = t.shader_source.as_str().as_bytes();
        hasher.write(le_bytes_of(src.len() as u64).as_slice());
        hasher.write(src);
        hasher.write(&sep);
        assert(hasher@ =~= fingerprint_writes(all.take(i + 1)));
        i += 1;
    }
    assert(all.take(n as int) =~= all);
    hasher.finish()
}

/// The definitions of the shader files, in order.
fn build_defs(files: &Vec<(String, String)>) -> (defs: Vec<TransitionDef>)
    ensures
        defs_view(defs@) == shader_defs(files_view(files@)),
{
    let mut defs: Vec<TransitionDef> = Vec::new();
    let n = files.len();
    let mut i: usize = 0;
    let ghost fv = files_view(files@);
    while i < n
        invariant
            i <= n == files@.len(),
            fv == files_view(files@),
            defs@.len() == i,
            defs_view(defs@) == shader_defs(fv.take(i as int)),
        decreases n - i,
    {
        let stem = files[i].0.clone();
        let source = files[i].1.clone();
        let (header_name, author, description, params, shader_params) = parse_header(source.as_str());
        let name = if header_name.as_str().is_empty() {
            title_case_stem(stem.as_str())
        } else {
            header_name
        };
        let def = TransitionDef {
            id: stem,
            name,
            author,
            description,
            params,
            shader_params,
            shader_source: source,
        };
        assert(def@ == shader_def(fv[i as int].0, fv[i as int].1));
        let ghost before = defs@;
        defs.push(def);
        assert(defs_view(defs@) =~= shader_defs(fv.take(i + 1))) by {
            assert(defs_view(before) =~= shader_defs(fv.take(i as int)));
            assert forall|k: int| 0 <= k < i implies #[trigger] defs@[k]@ == shader_defs(fv.take(i + 1))[k] by {
                assert(defs@[k] == before[k]);
                assert(defs_view(before)[k] == shader_defs(fv.take(i as int))[k]);
            }
        }
        i += 1;
    }
    assert(fv.take(n as int) =~= fv);
    defs
}


fn text_le_chars(a: &[char], b: &[char]) -> (r: bool)
    ensures
        r == text_le(a@, b@),
{
    let mut i: usize = 0;
    assert(a@.skip(0) =~= a@);
    assert(b@.skip(0) =~= b@);
    assert(a@.take(0) =~= b@.take(0));
    while i < a.len() && i < b.len() && a[i] == b[i]
        invariant
            i <= a@.len(),
            i <= b@.len(),
            a@.take(i as int) == b@.take(i as int),
            text_le(a@, b@) == text_le(a@.skip(i as int), b@.skip(i as int)),
        decreases a@.len() - i,
    {
        proof {
            let x = a@.skip(i as int);
            let y = b@.skip(i as int);
            assert(x.drop_first() =~= a@.skip(i + 1));
            assert(y.drop_first() =~= b@.skip(i + 1));
            assert(a@.take(i + 1) =~= a@.take(i as int).push(a@[i as int]));
            assert(b@.take(i + 1) =~= b@.take(i as int).push(b@[i as int]));
        }
        i += 1;
    }
    if i == a.len() {
        true
    } else if i == b.len() {
        false
    } else {
        a[i] < b[i]
    }
}

/// Placing `x` right after the last element whose key is no greater than its own.
proof fn lemma_insert_sorted_at(s: Seq<TransitionView>, x: TransitionView, j: int)
    requires
        0 <= j <= s.len(),
        forall|m: int| j <= m < s.len() ==> !text_le(sort_key(#[trigger] s[m]), sort_key(x)),
        j == 0 || text_le(sort_key(s[j - 1]), sort_key(x)),
    ensures
        insert_sorted(s, x) == s.take(j).push(x) + s.skip(j),
    decreases s.len(),
{
    if s.len() == j {
        if j == 0 {
            assert(s.take(0).push(x) + s.skip(0) =~= seq![x]);
        } else {
            assert(s.take(j).push(x) + s.skip(j) =~= s.push(x));
        }
    } else {
        let t = s.drop_last();
        assert forall|m: int| j <= m < t.len() implies !text_le(sort_key(#[trigger] t[m]), sort_key(x)) by {
            assert(t[m] == s[m]);
        }
        if j > 0 {
            assert(t[j - 1] == s[j - 1]);
        }
        lemma_insert_sorted_at(t, x, j);
        assert(!text_le(sort_key(s[s.len() - 1]), sort_key(x)));
        assert((t.take(j).push(x) + t.skip(j)).push(s.last()) =~= s.take(j).push(x) + s.skip(j));
    }
}

/// The definitions ordered by lower-cased name; equal names keep their order.
fn sort_defs(defs: Vec<TransitionDef>) -> (r: Vec<TransitionDef>)
    ensures
        defs_view(r@) == sorted_defs(defs_view(defs@)),
{
    let ghost orig = defs_view(defs@);
    let mut rest = defs;
    let mut sorted: Vec<TransitionDef> = Vec::new();
    let mut keys: Vec<Vec<char>> = Vec::new();
    let n = rest.len();
    assert(orig.take(0) =~= Seq::<TransitionView>::empty());
    assert(orig.skip(0) =~= orig);
    while rest.len() > 0
        invariant
            rest@.len() <= n == orig.len(),
            defs_view(rest@) == orig.skip(n - rest@.len()),
            defs_view(sorted@) == sorted_defs(orig.take(n - rest@.len())),
            keys@.len() == sorted@.len(),
            forall|m: int| 0 <= m < keys@.len() ==> (#[trigger] keys@[m])@ == sort_key(sorted@[m]@),
        decreases rest@.len(),
    {
        let ghost k = n - rest@.len();
        let ghost rv = defs_view(rest@);
        let x = rest.remove(0);
        assert(rv[0] == orig.skip(k)[0]);
        assert(x@ == orig[k]);
        assert(defs_view(rest@) =~= orig.skip(k + 1)) by {
            assert(orig.skip(k + 1) =~= rv.drop_first());
        }
        let kx = chars_of(str_to_lowercase(x.name.as_str()).as_str());
        let mut j = sorted.len();
        while j > 0 && !text_le_chars(keys[j - 1].as_slice(), kx.as_slice())
            invariant
                j <= sorted@.len() == keys@.len(),
                kx@ == sort_key(x@),
                forall|m: int| 0 <= m < keys@.len() ==> (#[trigger] keys@[m])@ == sort_key(sorted@[m]@),
                forall|m: int| j <= m < sorted@.len() ==> !text_le(sort_key(#[trigger] defs_view(sorted@)[m]), sort_key(x@)),
            decreases j,
        {
            assert(keys@[j - 1]@ == sort_key(defs_view(sorted@)[j - 1]));
            j -= 1;
        }
        let ghost s0 = defs_view(sorted@);
        proof {
            if j > 0 {
                assert(keys@[j - 1]@ == sort_key(s0[j - 1]));
            }
            lemma_insert_sorted_at(s0, x@, j as int);
            assert(orig.take(k + 1).drop_last() =~= orig.take(k));
            assert(orig.take(k + 1).last() == x@);
        }
        let ghost sorted0 = sorted@;
        let ghost keys0 = keys@;
        sorted.insert(j, x);
        keys.insert(j, kx);
        assert(defs_view(sorted@) =~= s0.take(j as int).push(x@) + s0.skip(j as int)) by {
            assert forall|m: int| 0 <= m < sorted@.len() implies #[trigger] defs_view(sorted@)[m] == (
            s0.take(j as int).push(x@) + s0.skip(j as int))[m] by {
                if m < j {
                    assert(sorted@[m] == sorted0[m]);
                } else if m > j {
                    assert(sorted@[m] == sorted0[m - 1]);
                }
            }
        }
        assert forall|m: int| 0 <= m < keys@.len() implies (#[trigger] keys@[m])@ == sort_key(sorted@[m]@) by {
            if m < j {
                assert(keys@[m] == keys0[m]);
                assert(sorted@[m] == sorted0[m]);
            } else if m > j {
                assert(keys@[m] == keys0[m - 1]);
                assert(sorted@[m] == sorted0[m - 1]);
            }
        }
    }
    assert(orig.take(n as int) =~= orig);
    sorted
}


/// Consecutive definitions come in the order of their keys.
pub open spec fn keys_ordered(s: Seq<TransitionView>) -> bool {
    forall|i: int, j: int|
        0 <= i && j == i + 1 && j < s.len() ==> text_le(sort_key(#[trigger] s[i]), sort_key(#[trigger] s[j]))
}

/// Of two texts, one comes no later than the other.
proof fn lemma_text_le_total(a: Seq<char>, b: Seq<char>)
    ensures
        text_le(a, b) || text_le(b, a),
    decreases a.len(),
{
    if a.len() > 0 && b.len() > 0 {
        if a[0] == b[0] {
            lemma_text_le_total(a.drop_first(), b.drop_first());
        }
    }
}

/// Inserting into ordered definitions keeps them ordered, adds one
/// definition and ends with either the inserted one or the old last one.
proof fn lemma_insert_sorted(s: Seq<TransitionView>, x: TransitionView)
    requires
        keys_ordered(s),
    ensures
        keys_ordered(insert_sorted(s, x)),
        insert_sorted(s, x).to_multiset() == s.to_multiset().insert(x),
        insert_sorted(s, x).len() == s.len() + 1,
        insert_sorted(s, x).last() == x || (s.len() > 0 && insert_sorted(s, x).last() == s.last()),
    decreases s.len(),
{
    broadcast use vstd::seq_lib::group_to_multiset_ensures;

    if s.len() == 0 {
        assert(seq![x] =~= Seq::<TransitionView>::empty().push(x));
    } else if text_le(sort_key(s.last()), sort_key(x)) {
    } else {
        let t = s.drop_last();
        assert forall|i: int, j: int| 0 <= i && j == i + 1 && j < t.len() implies text_le(
            sort_key(#[trigger] t[i]),
            sort_key(#[trigger] t[j]),
        ) by {
            assert(t[i] == s[i] && t[j] == s[j]);
        }
        lemma_insert_sorted(t, x);
        let r = insert_sorted(t, x);
        lemma_text_le_total(sort_key(s.last()), sort_key(x));
        if r.last() != x {
            assert(s[t.len() - 1] == t.last());
        }
        assert(text_le(sort_key(r.last()), sort_key(s.last())));
        assert forall|i: int, j: int| 0 <= i && j == i + 1 && j < r.push(s.last()).len() implies text_le(
            sort_key(#[trigger] r.push(s.last())[i]),
            sort_key(#[trigger] r.push(s.last())[j]),
        ) by {
            if j < r.len() {
                assert(r.push(s.last())[i] == r[i] && r.push(s.last())[j] == r[j]);
            }
        }
        assert(t.push(s.last()) =~= s);
    }
}

/// Sorting gives ordered definitions: the same ones, each as often as before.
proof fn lemma_sorted_defs(s: Seq<TransitionView>)
    ensures
        keys_ordered(sorted_defs(s)),
        sorted_defs(s).to_multiset() == s.to_multiset(),
        sorted_defs(s).len() == s.len(),
    decreases s.len(),
{
    broadcast use vstd::seq_lib::group_to_multiset_ensures;

    if s.len() > 0 {
        lemma_sorted_defs(s.drop_last());
        lemma_insert_sorted(sorted_defs(s.drop_last()), s.last());
        assert(s.drop_last().push(s.last()) =~= s);
    }
}

/// A registry built from shader files starts with the synthetic "cut"
/// entry, followed by the definition of every shader file, each exactly
/// once, ordered by lower-cased name.
pub proof fn lemma_registry_order(files: Seq<(Seq<char>, Seq<char>)>)
    ensures
        registry_defs(files)[0] == cut_def(),
        registry_defs(files).len() == files.len() + 1,
        registry_defs(files).skip(1).to_multiset() == shader_defs(files).to_multiset(),
        keys_ordered(registry_defs(files).skip(1)),
{
    lemma_sorted_defs(shader_defs(files));
    assert(registry_defs(files).skip(1) =~= sorted_defs(shader_defs(files)));
}

/// Rescanning the shader files a registry was built from reports no change
/// and keeps the registry as it is.
pub proof fn lemma_rescan_same_files(files: Seq<(Seq<char>, Seq<char>)>, current: Seq<TransitionView>)
    requires
        current == registry_defs(files),
    ensures
        fingerprint_of(registry_defs(files)) == fingerprint_of(current),
{
}

/// Each definition adds five writes to the fingerprint.
proof fn lemma_fingerprint_writes_len(defs: Seq<TransitionView>)
    ensures
        fingerprint_writes(defs).len() == 5 * defs.len(),
    decreases defs.len(),
{
    if defs.len() > 0 {
        lemma_fingerprint_writes_len(defs.drop_last());
    }
}

/// What the fingerprint hashes determines every transition's identifier and
/// full shader text: two definition lists whose fingerprint writes are the
/// same have the same number of transitions, with the same identifiers and
/// the same sources, in the same order. So a rescan after any change of an
/// identifier or of a shader's text hashes different writes.
pub proof fn lemma_fingerprint_writes_determine(a: Seq<TransitionView>, b: Seq<TransitionView>)
    requires
        fingerprint_writes(a) == fingerprint_writes(b),
    ensures
        a.len() == b.len(),
        forall|i: int| 0 <= i < a.len() ==> (#[trigger] a[i]).id == b[i].id && a[i].source == b[i].source,
    decreases a.len(),
{
    lemma_fingerprint_writes_len(a);
    lemma_fingerprint_writes_len(b);
    if a.len() > 0 {
        let wa = fingerprint_writes(a);
        let pa = fingerprint_writes(a.drop_last());
        let pb = fingerprint_writes(b.drop_last());
        lemma_fingerprint_writes_len(a.drop_last());
        lemma_fingerprint_writes_len(b.drop_last());
        let k = pa.len() as int;
        assert(wa.take(k) =~= pa);
        assert(wa.take(k) =~= pb);
        let ta = a.last();
        let tb = b.last();
        assert(wa[k] == encode_utf8(ta.id));
        assert(wa[k] == encode_utf8(tb.id));
        assert(wa[k + 3] == encode_utf8(ta.source));
        assert(wa[k + 3] == encode_utf8(tb.source));
        vstd::utf8::encode_utf8_decode_utf8(ta.id);
        vstd::utf8::encode_utf8_decode_utf8(tb.id);
        vstd::utf8::encode_utf8_decode_utf8(ta.source);
        vstd::utf8::encode_utf8_decode_utf8(tb.source);
        lemma_fingerprint_writes_determine(a.drop_last(), b.drop_last());
        assert forall|i: int| 0 <= i < a.len() implies (#[trigger] a[i]).id == b[i].id && a[i].source
            == b[i].source by {
            if i < a.len() - 1 {
                assert(a.drop_last()[i] == a[i]);
                assert(b.drop_last()[i] == b[i]);
            }
        }
    } else {
        assert(b.len() == 0);
    }
}

/// Looking up an identifier finds a transition with that identifier, the
/// last one in the list, and finds nothing exactly when no transition has it.
pub proof fn lemma_lookup_finds_the_id(defs: Seq<TransitionView>, id: Seq<char>)
    ensures
        last_with_id(defs, id) matches Some(t) ==> t.id == id && exists|i: int|
            0 <= i < defs.len() && defs[i] == t && forall|j: int| i < j < defs.len() ==> (#[trigger] defs[j]).id != id,
        last_with_id(defs, id) is None <==> forall|i: int| 0 <= i < defs.len() ==> (#[trigger] defs[i]).id != id,
    decreases defs.len(),
{
    if defs.len() > 0 {
        let p = defs.drop_last();
        lemma_lookup_finds_the_id(p, id);
        if defs.last().id == id {
            assert(defs[defs.len() - 1] == defs.last());
        } else {
            if last_with_id(p, id) is Some {
                let t = last_with_id(p, id)->0;
                let i = choose|i: int|
                    0 <= i < p.len() && p[i] == t && forall|j: int| i < j < p.len() ==> (#[trigger] p[j]).id != id;
                assert(defs[i] == t);
                assert forall|j: int| i < j < defs.len() implies (#[trigger] defs[j]).id != id by {
                    if j < p.len() {
                        assert(p[j] == defs[j]);
                    }
                }
            }
            assert((forall|i: int| 0 <= i < defs.len() ==> (#[trigger] defs[i]).id != id) <==> (forall|i: int|
                0 <= i < p.len() ==> (#[trigger] p[i]).id != id)) by {
                if forall|i: int| 0 <= i < p.len() ==> (#[trigger] p[i]).id != id {
                    assert forall|i: int| 0 <= i < defs.len() implies (#[trigger] defs[i]).id != id by {
                        if i < p.len() {
                            assert(p[i] == defs[i]);
                        }
                    }
                }
                if forall|i: int| 0 <= i < defs.len() ==> (#[trigger] defs[i]).id != id {
                    assert forall|i: int| 0 <= i < p.len() implies (#[trigger] p[i]).id != id by {
                        assert(p[i] == defs[i]);
                    }
                }
            }
        }
    }
}

} // verus!
