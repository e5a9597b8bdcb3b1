//! Character-level helpers on strings, specified over `Seq<char>`.
use vstd::prelude::*;
use vstd::string::StringExecFns;

verus! {

broadcast use vstd::string::group_string_axioms;

// ── Whitespace and trimming ─────────────────────────────────────────────────

/// The characters with the Unicode `White_Space` property.
pub open spec fn is_white_space(c: char) -> bool {
    let u = c as u32;
    ||| 0x09 <= u <= 0x0D
    ||| u == 0x20
    ||| u == 0x85
    ||| u == 0xA0
    ||| u == 0x1680
    ||| 0x2000 <= u <= 0x200A
    ||| u == 0x2028
    ||| u == 0x2029
    ||| u == 0x202F
    ||| u == 0x205F
    ||| u == 0x3000
}

/// Whether `c` is white space: one of the `White_Space` characters, as
/// `char::is_whitespace` decides.
pub(crate) fn char_is_whitespace(c: char) -> (r: bool)
    ensures
        r == is_white_space(c),
{
    let u = c as u32;
    (0x09 <= u && u <= 0x0D) || u == 0x20 || u == 0x85 || u == 0xA0 || u == 0x1680 || (0x2000 <= u
        && u <= 0x200A) || u == 0x2028 || u == 0x2029 || u == 0x202F || u == 0x205F || u == 0x3000
}

/// The sequence without its leading white space.
pub open spec fn trim_start(s: Seq<char>) -> Seq<char>
    decreases s.len(),
{
    if s.len() > 0 && is_white_space(s[0]) {
        trim_start(s.drop_first())
    } else {
        s
    }
}

/// The sequence without its trailing white space.
pub open spec fn trim_end(s: Seq<char>) -> Seq<char>
    decreases s.len(),
{
    if s.len() > 0 && is_white_space(s.last()) {
        trim_end(s.drop_last())
    } else {
        s
    }
}

/// The sequence without leading and trailing white space.
pub open spec fn trimmed(s: Seq<char>) -> Seq<char> {
    trim_end(trim_start(s))
}

/// `trim_start(s)` is the suffix of `s` from its first non-white-space character.
pub proof fn lemma_trim_start_skip(s: Seq<char>, i: int)
    requires
        0 <= i <= s.len(),
        forall|j: int| 0 <= j < i ==> is_white_space(#[trigger] s[j]),
    ensures
        trim_start(s) == trim_start(s.skip(i)),
    decreases i,
{
    if i > 0 {
        assert(s.skip(1) =~= s.drop_first());
        lemma_trim_start_skip(s.drop_first(), i - 1);
        assert(s.drop_first().skip(i - 1) =~= s.skip(i));
    } else {
        assert(s.skip(0) =~= s);
    }
}

/// `trim_end(s)` is the prefix of `s` up to its last non-white-space character.
pub proof fn lemma_trim_end_take(s: Seq<char>, j: int)
    requires
        0 <= j <= s.len(),
        forall|k: int| j <= k < s.len() ==> is_white_space(#[trigger] s[k]),
    ensures
        trim_end(s) == trim_end(s.take(j)),
    decreases s.len() - j,
{
    if j < s.len() {
        assert(s.take(s.len() - 1) =~= s.drop_last());
        lemma_trim_end_take(s.drop_last(), j);
        assert(s.drop_last().take(j) =~= s.take(j));
    } else {
        assert(s.take(j) =~= s);
    }
}

/// `trim_start(s)` is a suffix of `s` that does not start with white space.
proof fn lemma_trim_start_suffix(s: Seq<char>)
    ensures
        trim_start(s).len() <= s.len(),
        forall|i: int|
            0 <= i < trim_start(s).len() ==> #[trigger] trim_start(s)[i] == s[i + s.len() - trim_start(s).len()],
        trim_start(s).len() > 0 ==> !is_white_space(trim_start(s)[0]),
    decreases s.len(),
{
    if s.len() > 0 && is_white_space(s[0]) {
        lemma_trim_start_suffix(s.drop_first());
    }
}

/// `trim_end(s)` is a prefix of `s` that does not end with white space.
proof fn lemma_trim_end_prefix(s: Seq<char>)
    ensures
        trim_end(s).len() <= s.len(),
        forall|i: int| 0 <= i < trim_end(s).len() ==> #[trigger] trim_end(s)[i] == s[i],
        trim_end(s).len() > 0 ==> !is_white_space(trim_end(s).last()),
    decreases s.len(),
{
    if s.len() > 0 && is_white_space(s.last()) {
        lemma_trim_end_prefix(s.drop_last());
    }
}

/// A trimmed sequence neither starts nor ends with white space, and holds
/// only characters of the original.
pub proof fn lemma_trimmed_shape(s: Seq<char>)
    ensures
        trimmed(s).len() > 0 ==> !is_white_space(trimmed(s)[0]) && !is_white_space(trimmed(s).last()),
        forall|c: char| trimmed(s).contains(c) ==> s.contains(c),
{
    let a = trim_start(s);
    lemma_trim_start_suffix(s);
    lemma_trim_end_prefix(a);
    let t = trimmed(s);
    if t.len() > 0 {
        assert(t[0] == a[0]);
    }
    assert forall|c: char| t.contains(c) implies s.contains(c) by {
        let i = choose|i: int| 0 <= i < t.len() && t[i] == c;
        assert(t[i] == a[i]);
        assert(a[i] == s[i + s.len() - a.len()]);
    }
}

/// A sequence that neither starts nor ends with white space is its own trim.
pub proof fn lemma_trimmed_unchanged(s: Seq<char>)
    requires
        s.len() > 0 ==> !is_white_space(s[0]) && !is_white_space(s.last()),
    ensures
        trimmed(s) == s,
{
}

/// The characters of a string, in order.
pub fn chars_of(s: &str) -> (v: Vec<char>)
    ensures
        v@ == s@,
{
    let mut out: Vec<char> = Vec::new();
    for c in it: s.chars()
        invariant
            out@ == it.seq().take(it.index() as int),
    {
        out.push(c);
    }
    out
}

/// Appends one character to a string.
#[verifier::external_body]
pub(crate) fn push_char(s: &mut String, c: char)
    ensures
        final(s)@ == old(s)@.push(c),
{
    s.push(c);
}

/// The string made of `v[from..to]`.
pub fn string_of_range(v: &[char], from: usize, to: usize) -> (s: String)
    requires
        from <= to <= v@.len(),
    ensures
        s@ == v@.subrange(from as int, to as int),
{
    let mut out = String::new();
    let mut i = from;
    while i < to
        invariant
            from <= i <= to <= v@.len(),
            out@ == v@.subrange(from as int, i as int),
        decreases to - i,
    {
        push_char(&mut out, v[i]);
        i += 1;
        assert(out@ =~= v@.subrange(from as int, i as int));
    }
    out
}

/// The string made of all of `v`.
pub fn string_of(v: &[char]) -> (s: String)
    ensures
        s@ == v@,
{
    let s = string_of_range(v, 0, v.len());
    assert(v@.subrange(0, v@.len() as int) =~= v@);
    s
}

/// The bounds of `v` without leading and trailing white space.
pub fn trim_bounds(v: &[char]) -> (r: (usize, usize))
    ensures
        r.0 <= r.1 <= v@.len(),
        v@.subrange(r.0 as int, r.1 as int) == trimmed(v@),
{
    let n = v.len();
    let mut i: usize = 0;
    while i < n && char_is_whitespace(v[i])
        invariant
            i <= n == v@.len(),
            forall|j: int| 0 <= j < i ==> is_white_space(#[trigger] v@[j]),
        decreases n - i,
    {
        i += 1;
    }
    proof {
        lemma_trim_start_skip(v@, i as int);
    }
    let mut j: usize = n;
    while j > i && char_is_whitespace(v[j - 1])
        invariant
            i <= j <= n == v@.len(),
            forall|k: int| j <= k < n ==> is_white_space(#[trigger] v@[k]),
        decreases j,
    {
        j -= 1;
    }
    proof {
        let t = v@.skip(i as int);
        assert forall|k: int| (j - i) <= k < t.len() implies is_white_space(#[trigger] t[k]) by {
            assert(t[k] == v@[k + i]);
        }
        lemma_trim_end_take(t, j - i);
        assert(t.take(j - i) =~= v@.subrange(i as int, j as int));
        let u = t.take(j - i);
        if u.len() > 0 {
            assert(u[0] == v@[i as int]);
        }
        assert(trim_start(u) == u);
    }
    (i, j)
}

/// The characters of `v` without leading and trailing white space.
pub fn trim_chars(v: &[char]) -> (t: Vec<char>)
    ensures
        t@ == trimmed(v@),
{
    let (i, j) = trim_bounds(v);
    let mut out: Vec<char> = Vec::new();
    let mut k = i;
    while k < j
        invariant
            i <= k <= j <= v@.len(),
            out@ == v@.subrange(i as int, k as int),
        decreases j - k,
    {
        out.push(v[k]);
        k += 1;
        assert(out@ =~= v@.subrange(i as int, k as int));
    }
    out
}

// ── Splitting ───────────────────────────────────────────────────────────────

/// The pieces of `s` between occurrences of `sep`, as `str::split` gives them:
/// always at least one piece, empty pieces kept.
pub open spec fn split_on(s: Seq<char>, sep: char) -> Seq<Seq<char>>
    decreases s.len(),
{
    if s.len() == 0 {
        seq![Seq::<char>::empty()]
    } else {
        let init = split_on(s.drop_last(), sep);
        if s.last() == sep {
            init.push(Seq::<char>::empty())
        } else {
            init.update(init.len() - 1, init.last().push(s.last()))
        }
    }
}

pub proof fn lemma_split_nonempty(s: Seq<char>, sep: char)
    ensures
        split_on(s, sep).len() >= 1,
    decreases s.len(),
{
    if s.len() > 0 {
        lemma_split_nonempty(s.drop_last(), sep);
    }
}

/// No piece holds the separator.
pub proof fn lemma_split_pieces(s: Seq<char>, sep: char)
    ensures
        forall|i: int| 0 <= i < split_on(s, sep).len() ==> !(#[trigger] split_on(s, sep)[i]).contains(sep),
    decreases s.len(),
{
    if s.len() > 0 {
        lemma_split_pieces(s.drop_last(), sep);
        lemma_split_nonempty(s.drop_last(), sep);
        let init = split_on(s.drop_last(), sep);
        let r = split_on(s, sep);
        assert forall|i: int| 0 <= i < r.len() implies !(#[trigger] r[i]).contains(sep) by {
            if s.last() == sep {
                if i < init.len() {
                    assert(r[i] == init[i]);
                } else {
                    assert(r[i] == Seq::<char>::empty());
                }
            } else if i < init.len() - 1 {
                assert(r[i] == init[i]);
            } else {
                let last = init.last().push(s.last());
                assert(r[i] == last);
                if last.contains(sep) {
                    let k = choose|k: int| 0 <= k < last.len() && last[k] == sep;
                    if k < init.last().len() {
                        assert(init.last()[k] == sep);
                        assert(init[init.len() - 1].contains(sep));
                    }
                }
            }
        }
    }
}

/// A sequence without the separator is a single piece.
pub proof fn lemma_split_none(s: Seq<char>, sep: char)
    requires
        !s.contains(sep),
    ensures
        split_on(s, sep) == seq![s],
    decreases s.len(),
{
    if s.len() > 0 {
        assert(!s.drop_last().contains(sep)) by {
            if s.drop_last().contains(sep) {
                let k = choose|k: int| 0 <= k < s.drop_last().len() && s.drop_last()[k] == sep;
                assert(s[k] == sep);
            }
        }
        lemma_split_none(s.drop_last(), sep);
        assert(s[s.len() - 1] != sep);
        assert(s.drop_last().push(s.last()) =~= s);
        assert(split_on(s, sep) =~= seq![s]);
    } else {
        assert(s =~= Seq::<char>::empty());
    }
}

/// Splitting around one separator joins the pieces of both sides.
pub proof fn lemma_split_concat(x: Seq<char>, sep: char, y: Seq<char>)
    ensures
        split_on(x + seq![sep] + y, sep) == split_on(x, sep) + split_on(y, sep),
    decreases y.len(),
{
    let s = x + seq![sep] + y;
    if y.len() == 0 {
        assert(s.drop_last() =~= x);
        assert(split_on(y, sep) =~= seq![Seq::<char>::empty()]);
        assert(split_on(x, sep).push(Seq::<char>::empty()) =~= split_on(x, sep) + split_on(y, sep));
    } else {
        assert(s.drop_last() =~= x + seq![sep] + y.drop_last());
        lemma_split_concat(x, sep, y.drop_last());
        lemma_split_nonempty(y.drop_last(), sep);
        lemma_split_nonempty(x, sep);
        let a = split_on(x, sep);
        let b = split_on(y.drop_last(), sep);
        assert(s.last() == y.last());
        if y.last() == sep {
            assert((a + b).push(Seq::<char>::empty()) =~= a + b.push(Seq::<char>::empty()));
        } else {
            let ab = a + b;
            assert(ab.update(ab.len() - 1, ab.last().push(y.last())) =~= a + b.update(
                b.len() - 1,
                b.last().push(y.last()),
            ));
        }
    }
}

/// The pieces of `v` between occurrences of `sep`.
pub fn split_chars(v: &[char], sep: char) -> (pieces: Vec<Vec<char>>)
    ensures
        pieces.deep_view() == split_on(v@, sep),
{
    let mut pieces: Vec<Vec<char>> = Vec::new();
    let mut cur: Vec<char> = Vec::new();
    let n = v.len();
    let mut i: usize = 0;
    assert(v@.take(0) =~= Seq::<char>::empty());
    assert(pieces.deep_view().push(cur@) =~= split_on(v@.take(0), sep));
    while i < n
        invariant
            i <= n == v@.len(),
            pieces.deep_view().push(cur@) == split_on(v@.take(i as int), sep),
        decreases n - i,
    {
        let c = v[i];
        let ghost before = pieces.deep_view();
        proof {
            assert(v@.take(i + 1).drop_last() =~= v@.take(i as int));
            assert(v@.take(i + 1).last() == c);
        }
        if c == sep {
            let ghost done = cur@;
            proof {
                assert(cur.deep_view() =~= cur@);
            }
            let ghost old_pieces = pieces@;
            pieces.push(cur);
            cur = Vec::new();
            assert(pieces.deep_view() =~= before.push(done)) by {
                assert(pieces@ == old_pieces.push(pieces@[old_pieces.len() as int]));
                assert forall|k: int| 0 <= k < old_pieces.len() implies pieces.deep_view()[k] == before[k] by {
                    assert(pieces@[k] == old_pieces[k]);
                }
            }
            assert(pieces.deep_view().push(cur@) =~= before.push(done).push(Seq::<char>::empty()));
        } else {
            let ghost old_cur = cur@;
            cur.push(c);
            assert(pieces.deep_view() == before);
            assert(pieces.deep_view().push(cur@) =~= before.push(old_cur).update(
                before.len() as int,
                old_cur.push(c),
            ));
        }
        i += 1;
    }
    assert(v@.take(n as int) =~= v@);
    let ghost before = pieces.deep_view();
    let ghost old_pieces = pieces@;
    let ghost last = cur@;
    proof {
        assert(cur.deep_view() =~= cur@);
    }
    pieces.push(cur);
    assert(pieces.deep_view() =~= before.push(last)) by {
        assert forall|k: int| 0 <= k < old_pieces.len() implies pieces.deep_view()[k] == before[k] by {
            assert(pieces@[k] == old_pieces[k]);
        }
    }
    pieces
}

// ── Case ────────────────────────────────────────────────────────────────────

pub open spec fn ascii_lower_char(c: char) -> char {
    if 'A' <= c <= 'Z' {
        ((c as u32) + 32) as char
    } else {
        c
    }
}

/// The sequence with ASCII capitals replaced by their small letters.
pub open spec fn ascii_lower(s: Seq<char>) -> Seq<char> {
    s.map_values(|c: char| ascii_lower_char(c))
}

/// `s` with its ASCII capitals made small (`str::to_ascii_lowercase`).
pub fn ascii_lower_chars(v: &[char]) -> (r: Vec<char>)
    ensures
        r@ == ascii_lower(v@),
{
    let mut out: Vec<char> = Vec::new();
    let n = v.len();
    let mut i: usize = 0;
    while i < n
        invariant
            i <= n == v@.len(),
            out@ == ascii_lower(v@.take(i as int)),
        decreases n - i,
    {
        out.push(lower_char(v[i]));
        i += 1;
        assert(out@ =~= ascii_lower(v@.take(i as int)));
    }
    assert(v@.take(n as int) =~= v@);
    out
}

fn lower_char(c: char) -> (r: char)
    ensures
        r == ascii_lower_char(c),
{
    if 'A' <= c && c <= 'Z' {
        let r = ((c as u8) + 32) as char;
        assert(r == ((c as u32) + 32) as char);
        r
    } else {
        c
    }
}

/// `str::eq_ignore_ascii_case`: equal once ASCII capitals are made small.
pub fn eq_ignore_ascii_case(a: &[char], b: &[char]) -> (r: bool)
    ensures
        r == (ascii_lower(a@) == ascii_lower(b@)),
{
    if a.len() != b.len() {
        proof {
            assert(ascii_lower(a@).len() != ascii_lower(b@).len());
        }
        return false;
    }
    let n = a.len();
    let mut i: usize = 0;
    while i < n
        invariant
            i <= n == a@.len() == b@.len(),
            forall|k: int| 0 <= k < i ==> ascii_lower_char(#[trigger] a@[k]) == ascii_lower_char(b@[k]),
        decreases n - i,
    {
        let lx = lower_char(a[i]);
        let ly = lower_char(b[i]);
        if lx != ly {
            proof {
                assert(ascii_lower(a@)[i as int] != ascii_lower(b@)[i as int]);
            }
            return false;
        }
        i += 1;
    }
    assert(ascii_lower(a@) =~= ascii_lower(b@));
    true
}

// ── Numbers ─────────────────────────────────────────────────────────────────

/// The decimal digits of `n`, most significant first, without leading zeros.
pub open spec fn decimal(n: nat) -> Seq<char>
    decreases n,
{
    if n < 10 {
        seq![((n + 48) as u32) as char]
    } else {
        decimal(n / 10).push((((n % 10) + 48) as u32) as char)
    }
}

/// Appends the decimal digits of `n` to `out`.
pub fn push_decimal(out: &mut String, n: u64)
    ensures
        final(out)@ == old(out)@ + decimal(n as nat),
    decreases n,
{
    if n >= 10 {
        push_decimal(out, n / 10);
    }
    let d = (n % 10) as u8;
    let c = (d + 48) as char;
    proof {
        assert(c == (((n % 10) + 48) as u32) as char);
    }
    push_char(out, c);
    proof {
        if n < 10 {
            assert(old(out)@.push(c) =~= old(out)@ + decimal(n as nat));
        } else {
            assert(old(out)@ + decimal((n / 10) as nat) + seq![c] =~= old(out)@ + decimal(n as nat));
        }
    }
}

// ── Replacing ───────────────────────────────────────────────────────────────

/// `str::replace` for a non-empty pattern: every occurrence, scanning from the
/// left and not overlapping, is replaced.
pub open spec fn replace_all(s: Seq<char>, pat: Seq<char>, rep: Seq<char>) -> Seq<char>
    recommends
        pat.len() > 0,
    decreases s.len(),
{
    if s.len() < pat.len() || pat.len() == 0 {
        s
    } else if s.take(pat.len() as int) == pat {
        rep + replace_all(s.skip(pat.len() as int), pat, rep)
    } else {
        seq![s[0]] + replace_all(s.drop_first(), pat, rep)
    }
}

/// Whether `v` holds `pat` at position `i`.
fn matches_at(v: &[char], i: usize, pat: &[char]) -> (r: bool)
    requires
        i <= v@.len(),
    ensures
        r == (i + pat@.len() <= v@.len() && v@.subrange(i as int, i + pat@.len()) == pat@),
{
    if pat.len() > v.len() - i {
        return false;
    }
    assert(i + pat@.len() <= v@.len());
    let mut k: usize = 0;
    while k < pat.len()
        invariant
            k <= pat@.len(),
            i + pat@.len() <= v@.len() == v.len(),
            forall|j: int| 0 <= j < k ==> v@[i + j] == #[trigger] pat@[j],
        decreases pat@.len() - k,
    {
        if v[i + k] != pat[k] {
            proof {
                assert(v@.subrange(i as int, i + pat@.len())[k as int] != pat@[k as int]);
            }
            return false;
        }
        k += 1;
    }
    assert(v@.subrange(i as int, i + pat@.len()) =~= pat@);
    true
}

/// `s` with every occurrence of `pat` replaced by `rep`.
pub fn replace_all_chars(s: &[char], pat: &[char], rep: &[char]) -> (r: Vec<char>)
    requires
        pat@.len() > 0,
    ensures
        r@ == replace_all(s@, pat@, rep@),
{
    let mut out: Vec<char> = Vec::new();
    let n = s.len();
    let mut i: usize = 0;
    assert(s@.skip(0) =~= s@);
    while i < n
        invariant
            i <= n == s@.len(),
            pat@.len() > 0,
            out@ + replace_all(s@.skip(i as int), pat@, rep@) == replace_all(s@, pat@, rep@),
        decreases n - i,
    {
        let ghost rest = s@.skip(i as int);
        if matches_at(s, i, pat) {
            proof {
                assert(rest.take(pat@.len() as int) =~= s@.subrange(i as int, i + pat@.len()));
                assert(rest.skip(pat@.len() as int) =~= s@.skip(i + pat@.len()));
            }
            let mut k: usize = 0;
            let ghost out0 = out@;
            while k < rep.len()
                invariant
                    k <= rep@.len(),
                    out@ == out0 + rep@.take(k as int),
                decreases rep@.len() - k,
            {
                out.push(rep[k]);
                k += 1;
                assert(out@ =~= out0 + rep@.take(k as int));
            }
            assert(rep@.take(rep@.len() as int) =~= rep@);
            assert(out0 + (rep@ + replace_all(rest.skip(pat@.len() as int), pat@, rep@)) =~= out@
                + replace_all(rest.skip(pat@.len() as int), pat@, rep@));
            i += pat.len();
        } else {
            proof {
                if rest.len() >= pat@.len() {
                    assert(rest.take(pat@.len() as int) =~= s@.subrange(i as int, i + pat@.len()));
                }
                assert(rest.drop_first() =~= s@.skip(i + 1));
            }
            let ghost out0 = out@;
            out.push(s[i]);
            assert(out0 + (seq![s@[i as int]] + replace_all(rest.drop_first(), pat@, rep@)) =~= out@
                + replace_all(rest.drop_first(), pat@, rep@));
            i += 1;
        }
    }
    assert(s@.skip(n as int) =~= Seq::<char>::empty());
    assert(out@ + Seq::<char>::empty() =~= out@);
    out
}


// ── Unicode case mapping ────────────────────────────────────────────────────

/// What `char::to_uppercase` gives for `c`, collected into a string.
pub uninterp spec fn uppercase_char(c: char) -> Seq<char>;

/// What `str::to_lowercase` gives for `s`.
pub uninterp spec fn lowercase(s: Seq<char>) -> Seq<char>;

/// `char::to_uppercase`, collected; its result is named `uppercase_char`.
#[verifier::external_body]
pub(crate) fn char_to_uppercase(c: char) -> (r: String)
    ensures
        r@ == uppercase_char(c),
{
    c.to_uppercase().collect()
}

/// `str::to_lowercase`; its result is named `lowercase`.
#[verifier::external_body]
pub(crate) fn str_to_lowercase(s: &str) -> (r: String)
    ensures
        r@ == lowercase(s@),
{
    s.to_lowercase()
}

// ── Prefixes ────────────────────────────────────────────────────────────────

pub open spec fn has_prefix(s: Seq<char>, p: Seq<char>) -> bool {
    p.len() <= s.len() && s.take(p.len() as int) == p
}

/// Whether `v` starts with `p`.
pub fn starts_with(v: &[char], p: &[char]) -> (r: bool)
    ensures
        r == has_prefix(v@, p@),
{
    if p.len() > v.len() {
        return false;
    }
    let mut k: usize = 0;
    while k < p.len()
        invariant
            k <= p@.len() <= v@.len(),
            forall|j: int| 0 <= j < k ==> v@[j] == #[trigger] p@[j],
        decreases p@.len() - k,
    {
        if v[k] != p[k] {
            assert(v@.take(p@.len() as int)[k as int] != p@[k as int]);
            return false;
        }
        k += 1;
    }
    assert(v@.take(p@.len() as int) =~= p@);
    true
}

/// `s` with every leading copy of `p` removed (`str::trim_start_matches`).
pub open spec fn strip_leading(s: Seq<char>, p: Seq<char>) -> Seq<char>
    decreases s.len(),
{
    if p.len() > 0 && has_prefix(s, p) {
        strip_leading(s.skip(p.len() as int), p)
    } else {
        s
    }
}

/// The characters of `v` from position `from` on.
pub fn chars_from(v: &[char], from: usize) -> (r: Vec<char>)
    requires
        from <= v@.len(),
    ensures
        r@ == v@.skip(from as int),
{
    let mut out: Vec<char> = Vec::new();
    let mut k = from;
    while k < v.len()
        invariant
            from <= k <= v@.len(),
            out@ == v@.subrange(from as int, k as int),
        decreases v@.len() - k,
    {
        out.push(v[k]);
        k += 1;
        assert(out@ =~= v@.subrange(from as int, k as int));
    }
    assert(v@.subrange(from as int, v@.len() as int) =~= v@.skip(from as int));
    out
}

/// `v` with every leading copy of `p` removed.
pub fn strip_leading_chars(v: &[char], p: &[char]) -> (r: Vec<char>)
    ensures
        r@ == strip_leading(v@, p@),
{
    let mut i: usize = 0;
    if p.len() == 0 {
        return chars_from(v, 0);
    }
    assert(v@.skip(0) =~= v@);
    while i <= v.len() && starts_with(&chars_from(v, i), p)
        invariant
            i <= v@.len(),
            p@.len() > 0,
            strip_leading(v@, p@) == strip_leading(v@.skip(i as int), p@),
        decreases v@.len() - i,
    {
        assert(v@.skip(i as int).skip(p@.len() as int) =~= v@.skip(i + p@.len()));
        i += p.len();
    }
    chars_from(v, i)
}

// ── Lines and words ─────────────────────────────────────────────────────────

/// A line without the `\r` that ends it, if any.
pub open spec fn without_cr(l: Seq<char>) -> Seq<char> {
    if l.len() > 0 && l.last() == '\r' {
        l.drop_last()
    } else {
        l
    }
}

/// The lines of `s`, as `str::lines` gives them: split at `\n`, with the
/// `\r` of a `\r\n` ending removed, and no empty line after a final `\n`.
pub open spec fn lines(s: Seq<char>) -> Seq<Seq<char>> {
    let pieces = split_on(s, '\n');
    let n = pieces.len() - 1;
    let ended = Seq::new(n as nat, |i: int| without_cr(pieces[i]));
    if pieces[n].len() == 0 {
        ended
    } else {
        ended.push(pieces[n])
    }
}

/// The lines of `v`.
pub fn lines_of(v: &[char]) -> (ls: Vec<Vec<char>>)
    ensures
        ls.deep_view() == lines(v@),
{
    let pieces = split_chars(v, '\n');
    proof {
        lemma_split_nonempty(v@, '\n');
    }
    let ghost sp = split_on(v@, '\n');
    let n = pieces.len() - 1;
    let mut out: Vec<Vec<char>> = Vec::new();
    let mut i: usize = 0;
    while i < n
        invariant
            i <= n,
            n + 1 == pieces@.len() == sp.len(),
            pieces.deep_view() == sp,
            out@.len() == i,
            out.deep_view() == Seq::new(i as nat, |k: int| without_cr(sp[k])),
        decreases n - i,
    {
        assert(pieces.deep_view()[i as int] == pieces@[i as int].deep_view());
        assert(pieces@[i as int].deep_view() =~= pieces@[i as int]@);
        let piece = &pieces[i];
        let len = piece.len();
        let line = if len > 0 && piece[len - 1] == '\r' {
            string_prefix_vec(piece.as_slice(), len - 1)
        } else {
            string_prefix_vec(piece.as_slice(), len)
        };
        assert(line@ == without_cr(sp[i as int])) by {
            assert(piece@.take(len as int) =~= piece@);
            assert(piece@.take(len - 1) =~= piece@.drop_last());
        }
        let ghost before = out@;
        let ghost dv_before = out.deep_view();
        proof {
            assert(line.deep_view() =~= line@);
        }
        out.push(line);
        assert(out.deep_view() =~= Seq::new((i + 1) as nat, |k: int| without_cr(sp[k]))) by {
            assert forall|k: int| 0 <= k < i implies #[trigger] out@[k].deep_view() == without_cr(sp[k]) by {
                assert(out@[k] == before[k]);
                assert(dv_before[k] == before[k].deep_view());
                assert(dv_before[k] == without_cr(sp[k]));
            }
        }
        i += 1;
    }
    assert(pieces.deep_view()[n as int] == pieces@[n as int].deep_view());
    assert(pieces@[n as int].deep_view() =~= pieces@[n as int]@);
    if pieces[n].len() > 0 {
        let last = string_prefix_vec(pieces[n].as_slice(), pieces[n].len());
        assert(pieces@[n as int]@.take(pieces@[n as int]@.len() as int) =~= pieces@[n as int]@);
        let ghost before = out@;
        proof {
            assert(last.deep_view() =~= last@);
        }
        out.push(last);
        assert(out.deep_view() =~= lines(v@)) by {
            assert forall|k: int| 0 <= k < n implies #[trigger] out@[k].deep_view() == lines(v@)[k] by {
                assert(out@[k] == before[k]);
            }
        }
    } else {
        assert(out.deep_view() =~= lines(v@));
    }
    out
}

/// The first `len` characters of `v`, as a new vector.
fn string_prefix_vec(v: &[char], len: usize) -> (r: Vec<char>)
    requires
        len <= v@.len(),
    ensures
        r@ == v@.take(len as int),
{
    let mut out: Vec<char> = Vec::new();
    let mut k: usize = 0;
    while k < len
        invariant
            k <= len <= v@.len(),
            out@ == v@.take(k as int),
        decreases len - k,
    {
        out.push(v[k]);
        k += 1;
        assert(out@ =~= v@.take(k as int));
    }
    out
}

/// The pieces of `s` between runs of white space, without empty pieces
/// (`str::split_whitespace`), built from the left.
pub open spec fn words_from(s: Seq<char>, cur: Seq<char>, acc: Seq<Seq<char>>) -> Seq<Seq<char>>
    decreases s.len(),
{
    if s.len() == 0 {
        if cur.len() > 0 {
            acc.push(cur)
        } else {
            acc
        }
    } else if is_white_space(s[0]) {
        words_from(s.drop_first(), Seq::empty(), if cur.len() > 0 { acc.push(cur) } else { acc })
    } else {
        words_from(s.drop_first(), cur.push(s[0]), acc)
    }
}

pub open spec fn words(s: Seq<char>) -> Seq<Seq<char>> {
    words_from(s, Seq::empty(), Seq::empty())
}

/// The words of `v`, separated by white space.
pub fn words_of(v: &[char]) -> (ws: Vec<Vec<char>>)
    ensures
        ws.deep_view() == words(v@),
{
    let mut acc: Vec<Vec<char>> = Vec::new();
    let mut cur: Vec<char> = Vec::new();
    let n = v.len();
    let mut i: usize = 0;
    assert(v@.skip(0) =~= v@);
    assert(acc.deep_view() =~= Seq::<Seq<char>>::empty());
    assert(cur@ =~= Seq::<char>::empty());
    while i < n
        invariant
            i <= n == v@.len(),
            words(v@) == words_from(v@.skip(i as int), cur@, acc.deep_view()),
        decreases n - i,
    {
        let c = v[i];
        let ghost rest = v@.skip(i as int);
        let ghost acc0 = acc.deep_view();
        let ghost cur0 = cur@;
        assert(rest[0] == c);
        assert(rest.drop_first() =~= v@.skip(i + 1));
        if char_is_whitespace(c) {
            assert(words_from(rest, cur0, acc0) == words_from(
                rest.drop_first(),
                Seq::empty(),
                if cur0.len() > 0 { acc0.push(cur0) } else { acc0 },
            ));
            if cur.len() > 0 {
                let ghost before = acc@;
                let ghost cv = cur@;
                proof {
                    assert(cur.deep_view() =~= cur@);
                }
                acc.push(cur);
                assert(acc.deep_view() =~= old_push(before, cv)) by {
                    assert forall|k: int| 0 <= k < before.len() implies #[trigger] acc@[k].deep_view() == before[k].deep_view() by {
                        assert(acc@[k] == before[k]);
                    }
                }
                cur = Vec::new();
            }
            assert(cur@ =~= Seq::<char>::empty());
        } else {
            assert(words_from(rest, cur0, acc0) == words_from(rest.drop_first(), cur0.push(c), acc0));
            cur.push(c);
        }
        i += 1;
    }
    assert(v@.skip(n as int) =~= Seq::<char>::empty());
    if cur.len() > 0 {
        let ghost before = acc@;
        let ghost cv = cur@;
        proof {
            assert(cur.deep_view() =~= cur@);
        }
        acc.push(cur);
        assert(acc.deep_view() =~= old_push(before, cv)) by {
            assert forall|k: int| 0 <= k < before.len() implies #[trigger] acc@[k].deep_view() == before[k].deep_view() by {
                assert(acc@[k] == before[k]);
            }
        }
    }
    acc
}

/// The deep view of `v` with `x` appended.
pub open spec fn old_push(v: Seq<Vec<char>>, x: Seq<char>) -> Seq<Seq<char>> {
    Seq::new(v.len(), |k: int| v[k].deep_view()).push(x)
}


// ── Decimal number literals ─────────────────────────────────────────────────

pub open spec fn is_digit(c: char) -> bool {
    '0' <= c <= '9'
}

pub open spec fn all_digits(s: Seq<char>) -> bool {
    forall|i: int| 0 <= i < s.len() ==> is_digit(#[trigger] s[i])
}

pub open spec fn is_exp_mark(c: char) -> bool {
    c == 'e' || c == 'E'
}

/// The index of the first exponent mark of `s`, or its length when there is none.
pub open spec fn first_exp_mark(s: Seq<char>) -> int
    decreases s.len(),
{
    if s.len() == 0 {
        0
    } else if is_exp_mark(s[0]) {
        0
    } else {
        1 + first_exp_mark(s.drop_first())
    }
}

/// The index of the first `.` of `s`, or its length when there is none.
pub open spec fn first_dot(s: Seq<char>) -> int
    decreases s.len(),
{
    if s.len() == 0 {
        0
    } else if s[0] == '.' {
        0
    } else {
        1 + first_dot(s.drop_first())
    }
}

pub open spec fn without_sign(s: Seq<char>) -> Seq<char> {
    if s.len() > 0 && (s[0] == '+' || s[0] == '-') {
        s.drop_first()
    } else {
        s
    }
}

/// `Digit+ | Digit+ '.' Digit* | Digit* '.' Digit+`
pub open spec fn mantissa_ok(m: Seq<char>) -> bool {
    let p = first_dot(m);
    if p == m.len() {
        m.len() > 0 && all_digits(m)
    } else {
        m.len() >= 2 && all_digits(m.take(p)) && all_digits(m.skip(p + 1))
    }
}

/// `Sign? Digit+`
pub open spec fn exponent_ok(x: Seq<char>) -> bool {
    without_sign(x).len() > 0 && all_digits(without_sign(x))
}

/// The grammar that the standard library's parsing of single-precision
/// floating-point numbers accepts (its documentation gives it):
/// `Sign? ('inf' | 'infinity' | 'nan' | Number)`, where
/// `Number ::= (Digit+ | Digit+ '.' Digit* | Digit* '.' Digit+) Exp?`,
/// `Exp ::= ('e' | 'E') Sign? Digit+`, and the words are case-insensitive.
pub open spec fn float_literal(s: Seq<char>) -> bool {
    let b = without_sign(s);
    let e = first_exp_mark(b);
    ||| ascii_lower(b) == "inf"@
    ||| ascii_lower(b) == "infinity"@
    ||| ascii_lower(b) == "nan"@
    ||| mantissa_ok(b.take(e)) && (e == b.len() || exponent_ok(b.skip(e + 1)))
}

proof fn lemma_first_exp_mark(s: Seq<char>, i: int)
    requires
        0 <= i <= s.len(),
        forall|j: int| 0 <= j < i ==> !is_exp_mark(#[trigger] s[j]),
        i == s.len() || is_exp_mark(s[i]),
    ensures
        first_exp_mark(s) == i,
    decreases i,
{
    if i > 0 {
        lemma_first_exp_mark(s.drop_first(), i - 1);
    }
}

proof fn lemma_first_dot(s: Seq<char>, i: int)
    requires
        0 <= i <= s.len(),
        forall|j: int| 0 <= j < i ==> #[trigger] s[j] != '.',
        i == s.len() || s[i] == '.',
    ensures
        first_dot(s) == i,
    decreases i,
{
    if i > 0 {
        lemma_first_dot(s.drop_first(), i - 1);
    }
}

fn digits_only(v: &[char], from: usize, to: usize) -> (r: bool)
    requires
        from <= to <= v@.len(),
    ensures
        r == all_digits(v@.subrange(from as int, to as int)),
{
    let mut k = from;
    while k < to
        invariant
            from <= k <= to <= v@.len(),
            forall|j: int| from <= j < k ==> is_digit(#[trigger] v@[j]),
        decreases to - k,
    {
        if !('0' <= v[k] && v[k] <= '9') {
            assert(v@.subrange(from as int, to as int)[k - from] == v@[k as int]);
            return false;
        }
        k += 1;
    }
    assert forall|i: int| 0 <= i < to - from implies is_digit(#[trigger] v@.subrange(from as int, to as int)[i]) by {
        assert(v@.subrange(from as int, to as int)[i] == v@[from + i]);
    }
    true
}

fn text_is_lit(w: &[char], lit: &str) -> (r: bool)
    ensures
        r == (w@ == lit@),
{
    string_of(w) == lit.to_string()
}

/// Whether `v` is text that the standard library reads as a single-precision number.
pub fn is_float_literal(v: &[char]) -> (r: bool)
    ensures
        r == float_literal(v@),
{
    let start: usize = if v.len() > 0 && (v[0] == '+' || v[0] == '-') { 1 } else { 0 };
    let b = chars_from(v, start);
    assert(b@ == without_sign(v@)) by {
        if start == 1 {
            assert(v@.skip(1) =~= v@.drop_first());
        } else {
            assert(v@.skip(0) =~= v@);
        }
    }
    let lower = ascii_lower_chars(b.as_slice());
    if text_is_lit(lower.as_slice(), "inf") || text_is_lit(lower.as_slice(), "infinity")
        || text_is_lit(lower.as_slice(), "nan") {
        return true;
    }
    let n = b.len();
    let mut e: usize = 0;
    while e < n && !(b[e] == 'e' || b[e] == 'E')
        invariant
            e <= n == b@.len(),
            forall|j: int| 0 <= j < e ==> !is_exp_mark(#[trigger] b@[j]),
        decreases n - e,
    {
        e += 1;
    }
    proof {
        lemma_first_exp_mark(b@, e as int);
    }
    let mut p: usize = 0;
    while p < e && b[p] != '.'
        invariant
            p <= e <= n == b@.len(),
            forall|j: int| 0 <= j < p ==> #[trigger] b@[j] != '.',
        decreases e - p,
    {
        p += 1;
    }
    let ghost m = b@.take(e as int);
    proof {
        assert forall|j: int| 0 <= j < p implies #[trigger] m[j] != '.' by {
            assert(m[j] == b@[j]);
        }
        lemma_first_dot(m, p as int);
        assert(m.take(p as int) =~= b@.subrange(0, p as int));
        if p < e {
            assert(m.skip(p + 1) =~= b@.subrange(p + 1, e as int));
        }
        assert(m =~= b@.subrange(0, e as int));
    }
    let mantissa = if p == e {
        e > 0 && digits_only(b.as_slice(), 0, e)
    } else {
        e >= 2 && digits_only(b.as_slice(), 0, p) && digits_only(b.as_slice(), p + 1, e)
    };
    if !mantissa {
        return false;
    }
    if e == n {
        return true;
    }
    let x_start: usize = if e + 1 < n && (b[e + 1] == '+' || b[e + 1] == '-') { e + 2 } else { e + 1 };
    proof {
        let x = b@.skip(e + 1);
        if x_start == e + 2 {
            assert(x.drop_first() =~= b@.subrange(e + 2, n as int));
        } else {
            assert(x =~= b@.subrange(e + 1, n as int));
        }
    }
    x_start < n && digits_only(b.as_slice(), x_start, n)
}


// ── Title case ──────────────────────────────────────────────────────────────

/// A word with its first character upper-cased and, when `lower_rest`, the
/// rest lower-cased.
pub open spec fn capitalized(w: Seq<char>, lower_rest: bool) -> Seq<char> {
    uppercase_char(w[0]) + if lower_rest {
        lowercase(w.drop_first())
    } else {
        w.drop_first()
    }
}

/// The non-empty pieces, capitalized.
pub open spec fn title_words(pieces: Seq<Seq<char>>, lower_rest: bool) -> Seq<Seq<char>>
    decreases pieces.len(),
{
    if pieces.len() == 0 {
        Seq::empty()
    } else {
        let r = title_words(pieces.drop_last(), lower_rest);
        if pieces.last().len() == 0 {
            r
        } else {
            r.push(capitalized(pieces.last(), lower_rest))
        }
    }
}

/// Words joined by single spaces.
pub open spec fn spaced(ws: Seq<Seq<char>>) -> Seq<char>
    decreases ws.len(),
{
    if ws.len() == 0 {
        Seq::empty()
    } else if ws.len() == 1 {
        ws[0]
    } else {
        spaced(ws.drop_last()) + seq![' '] + ws.last()
    }
}

/// `s` split at `_`, empty pieces dropped, each piece capitalized, joined by spaces.
pub open spec fn title_case_spec(s: Seq<char>, lower_rest: bool) -> Seq<char> {
    spaced(title_words(split_on(s, '_'), lower_rest))
}

/// Converts `words_like_this` to `Words Like This`; with `lower_rest` the
/// rest of each word is lower-cased too.
pub fn title_case(s: &str, lower_rest: bool) -> (r: String)
    ensures
        r@ == title_case_spec(s@, lower_rest),
{
    let pieces = split_chars(chars_of(s).as_slice(), '_');
    let ghost ps = split_on(s@, '_');
    let mut out = String::new();
    let mut first = true;
    let n = pieces.len();
    let mut i: usize = 0;
    while i < n
        invariant
            i <= n == pieces@.len() == ps.len(),
            pieces.deep_view() == ps,
            first == (title_words(ps.take(i as int), lower_rest).len() == 0),
            out@ == spaced(title_words(ps.take(i as int), lower_rest)),
        decreases n - i,
    {
        assert(pieces.deep_view()[i as int] == pieces@[i as int].deep_view());
        assert(pieces@[i as int].deep_view() =~= pieces@[i as int]@);
        assert(ps.take(i + 1).drop_last() =~= ps.take(i as int));
        let piece = &pieces[i];
        if piece.len() > 0 {
            let upper = char_to_uppercase(piece[0]);
            let rest = string_of(chars_from(piece.as_slice(), 1).as_slice());
            assert(piece@.skip(1) =~= piece@.drop_first());
            let tail = if lower_rest {
                str_to_lowercase(rest.as_str())
            } else {
                rest
            };
            let ghost before = out@;
            if !first {
                push_char(&mut out, ' ');
            }
            out.append(upper.as_str());
            out.append(tail.as_str());
            proof {
                let w = title_words(ps.take(i as int), lower_rest);
                let word = capitalized(ps[i as int], lower_rest);
                assert(ps.take(i + 1).last() == ps[i as int]);
                assert(title_words(ps.take(i + 1), lower_rest) == w.push(word));
                assert(w.push(word).drop_last() =~= w);
                if first {
                    assert(out@ =~= word);
                    assert(spaced(w.push(word)) == word);
                } else {
                    assert(out@ =~= spaced(w) + seq![' '] + word);
                }
            }
            first = false;
        } else {
            assert(ps.take(i + 1).last() == ps[i as int]);
        }
        i += 1;
    }
    assert(ps.take(n as int) =~= ps);
    out
}

} // verus!
