//! Transition identifiers, the reading of older settings formats, and the
//! choices made when a scene switch's transition is resolved.
use vstd::prelude::*;
use crate::text::{chars_of, lowercase, str_to_lowercase, trim_chars, trimmed};

verus! {

broadcast use vstd::string::group_string_axioms;

/// Well-known transition ID: instant scene switch, no animation.
pub const TRANSITION_CUT: &'static str = "cut";

/// Well-known transition ID: linear crossfade.
pub const TRANSITION_FADE: &'static str = "fade";

/// The global default transition: the `default_transition` field when
/// present; otherwise the older `default_type` field, where `"Cut"` means
/// "cut" and anything else "fade"; otherwise "fade".
pub open spec fn migrated_default(
    default_transition: Option<String>,
    default_type: Option<String>,
) -> Seq<char> {
    match default_transition {
        Some(t) => t@,
        None => match default_type {
            Some(old) => if old@ == "Cut"@ {
                "cut"@
            } else {
                "fade"@
            },
            None => "fade"@,
        },
    }
}

/// The global default transition read from settings in either format.
pub fn default_transition_from(default_transition: Option<String>, default_type: Option<String>) -> (t: String)
    ensures
        t@ == migrated_default(default_transition, default_type),
{
    match default_transition {
        Some(t) => t,
        None => match default_type {
            Some(old) => if old == "Cut".to_string() {
                TRANSITION_CUT.to_string()
            } else {
                TRANSITION_FADE.to_string()
            },
            None => TRANSITION_FADE.to_string(),
        },
    }
}

/// A scene's transition override: the `transition` field when present;
/// otherwise the older `transition_type` field, where `"Cut"` and `"Fade"`
/// name the built-in transitions and any other name is lower-cased.
pub open spec fn migrated_override(
    transition: Option<String>,
    transition_type: Option<String>,
) -> Option<Seq<char>> {
    match transition {
        Some(t) => Some(t@),
        None => match transition_type {
            Some(old) => Some(
                if old@ == "Cut"@ {
                    "cut"@
                } else if old@ == "Fade"@ {
                    "fade"@
                } else {
                    lowercase(old@)
                },
            ),
            None => None,
        },
    }
}

/// A scene's transition override read from settings in either format.
pub fn override_transition_from(transition: Option<String>, transition_type: Option<String>) -> (t: Option<String>)
    ensures
        match t {
            Some(s) => migrated_override(transition, transition_type) == Some(s@),
            None => migrated_override(transition, transition_type) is None,
        },
{
    match transition {
        Some(t) => Some(t),
        None => match transition_type {
            Some(old) => Some(
                if old == "Cut".to_string() {
                    TRANSITION_CUT.to_string()
                } else if old == "Fade".to_string() {
                    TRANSITION_FADE.to_string()
                } else {
                    str_to_lowercase(old.as_str())
                },
            ),
            None => None,
        },
    }
}

/// The transition used for a scene switch: the scene's override, else the
/// global default.
pub fn resolve_transition_id(scene_override: &Option<String>, global_default: &String) -> (t: String)
    ensures
        t@ == match scene_override {
            Some(o) => o@,
            None => global_default@,
        },
{
    match scene_override {
        Some(o) => o.clone(),
        None => global_default.clone(),
    }
}

/// The duration of a scene switch: the scene's override, else the global default.
pub fn resolve_duration_ms(scene_override: Option<u32>, global_default: u32) -> (ms: u32)
    ensures
        ms == match scene_override {
            Some(o) => o,
            None => global_default,
        },
{
    match scene_override {
        Some(o) => o,
        None => global_default,
    }
}

/// The longest duration, in milliseconds, that the duration field accepts.
pub const MAX_TRANSITION_DURATION_MS: u32 = 30000;

pub open spec fn is_decimal_digit(c: char) -> bool {
    '0' <= c <= '9'
}

/// The number that decimal digits `d` write.
pub open spec fn digits_value(d: Seq<char>) -> nat
    decreases d.len(),
{
    if d.len() == 0 {
        0
    } else {
        digits_value(d.drop_last()) * 10 + ((d.last() as int) - 48) as nat
    }
}

/// `s` without one leading `+`.
pub open spec fn unsigned_part(s: Seq<char>) -> Seq<char> {
    if s.len() > 0 && s[0] == '+' {
        s.drop_first()
    } else {
        s
    }
}

/// What `str::parse::<u32>` gives for `s`: an optional `+`, then at least
/// one decimal digit, and a value that fits `u32`; `None` otherwise.
pub open spec fn u32_text_value(s: Seq<char>) -> Option<u32> {
    let d = unsigned_part(s);
    if d.len() > 0 && (forall|i: int| 0 <= i < d.len() ==> is_decimal_digit(#[trigger] d[i]))
        && digits_value(d) <= u32::MAX {
        Some(digits_value(d) as u32)
    } else {
        None
    }
}

/// A transition duration typed into the duration field: the trimmed text read
/// as a number of milliseconds, at most `MAX_TRANSITION_DURATION_MS`; `None`
/// when the text is not such a number (the setting then stays as it was).
pub open spec fn duration_from_text(text: Seq<char>) -> Option<u32> {
    match u32_text_value(trimmed(text)) {
        Some(v) => Some(if v > MAX_TRANSITION_DURATION_MS { MAX_TRANSITION_DURATION_MS } else { v }),
        None => None,
    }
}

/// A prefix of digits writes a number no larger than the whole.
proof fn lemma_digits_prefix(d: Seq<char>, j: int)
    requires
        0 <= j <= d.len(),
        forall|i: int| 0 <= i < d.len() ==> is_decimal_digit(#[trigger] d[i]),
    ensures
        digits_value(d.take(j)) <= digits_value(d),
    decreases d.len(),
{
    if j < d.len() {
        let p = d.drop_last();
        assert forall|i: int| 0 <= i < p.len() implies is_decimal_digit(#[trigger] p[i]) by {
            assert(p[i] == d[i]);
        }
        lemma_digits_prefix(p, j);
        assert(p.take(j) =~= d.take(j));
    } else {
        assert(d.take(j) =~= d);
    }
}

fn parse_u32_chars(v: &[char]) -> (r: Option<u32>)
    ensures
        r == u32_text_value(v@),
{
    let n = v.len();
    let start: usize = if n > 0 && v[0] == '+' { 1 } else { 0 };
    let ghost d = v@.skip(start as int);
    assert(d =~= unsigned_part(v@));
    if start == n {
        return None;
    }
    let mut acc: u64 = 0;
    let mut i: usize = start;
    assert(d.take(0) =~= Seq::<char>::empty());
    while i < n
        invariant
            start <= i <= n == v@.len(),
            start < n,
            d == v@.skip(start as int),
            d == unsigned_part(v@),
            d.len() == n - start,
            acc == digits_value(d.take(i - start)),
            acc <= u32::MAX,
            forall|k: int| 0 <= k < i - start ==> is_decimal_digit(#[trigger] d[k]),
        decreases n - i,
    {
        let c = v[i];
        assert(d[i - start] == c);
        if !('0' <= c && c <= '9') {
            assert(!is_decimal_digit(d[i - start]));
            assert(!(forall|k: int| 0 <= k < d.len() ==> is_decimal_digit(#[trigger] d[k])));
            return None;
        }
        assert(d.take(i - start + 1).drop_last() =~= d.take(i - start));
        acc = acc * 10 + (c as u64 - 48);
        i += 1;
        if acc > 4294967295 {
            proof {
                if forall|k: int| 0 <= k < d.len() ==> is_decimal_digit(#[trigger] d[k]) {
                    lemma_digits_prefix(d, i - start);
                    assert(digits_value(d) > u32::MAX);
                }
            }
            return None;
        }
    }
    assert(d.take(n - start) =~= d);
    Some(acc as u32)
}

/// Read the transition duration field (see `duration_from_text`).
pub fn transition_duration_from_text(text: &str) -> (r: Option<u32>)
    ensures
        r == duration_from_text(text@),
{
    let t = trim_chars(&chars_of(text));
    match parse_u32_chars(t.as_slice()) {
        Some(v) => Some(if v > MAX_TRANSITION_DURATION_MS { MAX_TRANSITION_DURATION_MS } else { v }),
        None => None,
    }
}

} // verus!
