//! Query parsing and ranking: `set>needle` queries, the set-prefix filter, the
//! best score of a glyph, and the order in which hits are listed.
use nucleo_matcher::pattern::{CaseMatching, Normalization, Pattern};
use nucleo_matcher::{Config, Matcher, Utf32Str};
use vstd::prelude::*;
use vstd::utf8::encode_utf8;

use crate::glyph::{spec_search_strings, spec_set_of, string_views, to_lowercase, unicode_lowercase, Glyph};
use crate::text::{
    all_ws, ascii_lower, ascii_lower_range, chars_of, lemma_trim_empty_iff_all_ws, find_char, has_prefix, index_of, is_ws,
    lemma_index_of, lemma_trim_end_is_prefix, lemma_trim_start_is_suffix, lower_ascii_char,
    starts_with_range, trim_end,
    string_of, string_of_range, trim, trim_range, trim_start,
};

verus! {

broadcast use vstd::seq_lib::group_seq_properties, vstd::multiset::group_multiset_axioms;

// ---------------------------------------------------------------------------
// The fuzzy matcher
// ---------------------------------------------------------------------------

/// nucleo's matcher: its configuration and scratch memory.
#[verifier::external_type_specification]
#[verifier::external_body]
pub struct ExMatcher(Matcher);

/// `Matcher::new(Config::DEFAULT)`. Nothing is stated of the matcher: it is
/// opaque here.
#[verifier::external_body]
fn new_matcher() -> Matcher {
    Matcher::new(Config::DEFAULT)
}

/// A nucleo matcher made with `Config::DEFAULT`. Its field is private to this
/// module, where the only calls made on it are [`pattern_score`] and
/// [`fuzzy_indices`]; they change no configuration field but the case and
/// normalisation settings, which `Pattern::score` sets from the pattern
/// itself before it matches and [`fuzzy_indices`] sets from its arguments.
pub struct FuzzyMatcher {
    inner: Matcher,
}

impl FuzzyMatcher {
    /// A matcher with nucleo's default configuration.
    pub fn new() -> FuzzyMatcher {
        FuzzyMatcher { inner: new_matcher() }
    }
}

/// The score that nucleo gives `haystack` (its UTF-8 bytes taken as ASCII
/// characters) for `needle` parsed by `Pattern::parse` with smart case and
/// smart normalisation, matched under `Config::DEFAULT`; `None` when some
/// word of the needle does not match.
pub uninterp spec fn nucleo_score(needle: Seq<char>, haystack: Seq<char>) -> Option<u32>;

/// The case and normalisation settings (`ignore_case`, `normalize`) that the
/// same call of `Pattern::score` leaves in the matcher: those of the word at
/// which it stops (the first that does not match, or else the last). `None`
/// when the needle has no words; the call then leaves the settings as they
/// were.
pub uninterp spec fn nucleo_settings(needle: Seq<char>, haystack: Seq<char>) -> Option<(bool, bool)>;

/// The most characters that one word of a needle can match before nucleo's
/// `u16` score may overflow: a word scores at most 36 for its first matched
/// character and 26 for each further one under `Config::DEFAULT`, and
/// 36 + 26 * 2519 = 65530.
pub open spec fn max_matched() -> nat {
    2520
}

/// Whether nucleo's score arithmetic stays in range for `needle` against
/// `haystack`. A needle with no characters is scored without looking at the
/// haystack. Otherwise the haystack must have at most `u32::MAX` bytes (nucleo
/// asserts it); a word matches no more characters than it has or than the
/// haystack has, so its `u16` score fits when the needle or the haystack has
/// at most [`max_matched`]; and the words' scores, summed in a `u32`, fit when
/// the needle has at most 2^26 characters.
pub open spec fn score_fits(needle: Seq<char>, haystack: Seq<char>) -> bool {
    let h = encode_utf8(haystack).len();
    ||| needle.len() == 0
    ||| h <= u32::MAX && needle.len() <= 0x400_0000 && (needle.len() <= max_matched()
        || h <= max_matched())
}

/// `Pattern::parse(needle, CaseMatching::Smart, Normalization::Smart)`, then
/// `Pattern::score` of it on `haystack` taken as ASCII bytes; the parse only
/// turns the needle into the pattern that `score` takes. Also gives the
/// matcher's case and normalisation settings after the call.
///
/// The score is [`nucleo_score`] of the needle and the haystack: the
/// matcher's configuration is nucleo's default, and `score` sets the case and
/// normalisation settings from the pattern before matching. A needle with no
/// words (nothing but spaces, or nothing) scores `Some(0)` (`Pattern::score`
/// returns it before matching). The settings are [`nucleo_settings`] when
/// the needle has words; otherwise nothing is stated of them. `requires`
/// leaves out the inputs on which nucleo's arithmetic could overflow or its
/// length assertion fail (see [`score_fits`]).
#[verifier::external_body]
fn pattern_score(needle: &str, haystack: &str, matcher: &mut FuzzyMatcher) -> (r: (
    Option<u32>,
    (bool, bool),
))
    requires
        score_fits(needle@, haystack@),
    ensures
        r.0 == nucleo_score(needle@, haystack@),
        needle@.len() == 0 ==> r.0 == Some(0u32),
        nucleo_settings(needle@, haystack@) matches Some(st) ==> r.1 == st,
{
    let pattern = Pattern::parse(needle, CaseMatching::Smart, Normalization::Smart);
    let score = pattern.score(Utf32Str::Ascii(haystack.as_bytes()), &mut matcher.inner);
    (score, (matcher.inner.config.ignore_case, matcher.inner.config.normalize))
}

/// The positions that nucleo's `Matcher::fuzzy_indices` appends for `needle`
/// (its UTF-8 bytes taken as ASCII characters) in the characters of
/// `haystack`, under `Config::DEFAULT` with the given `ignore_case` and
/// `normalize` settings.
pub uninterp spec fn nucleo_indices(
    ignore_case: bool,
    normalize: bool,
    haystack: Seq<char>,
    needle: Seq<char>,
) -> Seq<u32>;

/// Whether nucleo's `fuzzy_indices` arithmetic stays in range for `needle`
/// (taken as bytes) in `haystack`: nucleo asserts a haystack of at most
/// `u32::MAX` characters, and its `u16` score fits when the needle or the
/// haystack has at most [`max_matched`] characters.
pub open spec fn indices_fit(needle: Seq<char>, haystack: Seq<char>) -> bool {
    &&& haystack.len() <= u32::MAX
    &&& encode_utf8(needle).len() <= max_matched() || haystack.len() <= max_matched()
}

/// `Matcher::fuzzy_indices` of the needle's bytes in the characters of
/// `haystack`, with the matcher's case and normalisation settings first set
/// to `settings`, appending matched positions to `indices`. What it appends
/// is [`nucleo_indices`] of the settings, the haystack and the needle: the
/// rest of the configuration is nucleo's default. Each position it appends
/// is a position in the haystack. `requires` leaves out the inputs on which
/// nucleo's assertion could fail or its arithmetic overflow (see
/// [`indices_fit`]).
#[verifier::external_body]
fn fuzzy_indices(
    matcher: &mut FuzzyMatcher,
    settings: (bool, bool),
    haystack: &Vec<char>,
    needle: &str,
    indices: &mut Vec<u32>,
)
    requires
        indices_fit(needle@, haystack@),
    ensures
        final(indices)@ == old(indices)@ + nucleo_indices(settings.0, settings.1, haystack@, needle@),
        forall|k: int|
            old(indices)@.len() <= k < final(indices)@.len() ==> (#[trigger] final(indices)@[k])
                < haystack@.len(),
{
    matcher.inner.config.ignore_case = settings.0;
    matcher.inner.config.normalize = settings.1;
    matcher.inner.fuzzy_indices(
        Utf32Str::Unicode(haystack.as_slice()),
        Utf32Str::Ascii(needle.as_bytes()),
        indices,
    );
}

// ---------------------------------------------------------------------------
// Hits
// ---------------------------------------------------------------------------

/// One match result returned from [`filter`]: a glyph index plus the character
/// positions in the glyph's name that the needle matched, for highlighting.
#[derive(Debug, Clone)]
pub struct Hit {
    pub glyph_idx: usize,
    pub name_indices: Vec<u32>,
}

/// A glyph index together with the score that ranks it.
#[derive(Clone, Copy, Debug, PartialEq, Eq, Structural)]
pub struct Scored {
    pub glyph_idx: usize,
    pub score: u32,
}

// ---------------------------------------------------------------------------
// Query parsing
// ---------------------------------------------------------------------------

/// The view of an optional string.
pub open spec fn opt_view(o: Option<String>) -> Option<Seq<char>> {
    match o {
        Some(s) => Some(s@),
        None => None,
    }
}

/// How a raw query splits into a set prefix and a search needle: the query is
/// trimmed and split at its first `>`; both halves are trimmed, the prefix is
/// lowered (ASCII), and an empty prefix is no prefix.
pub open spec fn spec_split_query(q: Seq<char>) -> (Option<Seq<char>>, Seq<char>) {
    let t = trim(q);
    match index_of(t, '>') {
        Some(i) => {
            let left = trim(t.take(i as int));
            (
                if left.len() == 0 {
                    None
                } else {
                    Some(ascii_lower(left))
                },
                trim(t.skip(i + 1int)),
            )
        },
        None => (None, trim(t)),
    }
}

/// Split a raw query like `"md>folder"` into a (set prefix, search needle)
/// pair. The split happens on the first `>`. Both halves are trimmed and the
/// prefix is lowercased. An empty normalized prefix becomes `None`; an empty
/// needle stays a `String`.
pub fn split_query(q: &str) -> (r: (Option<String>, String))
    ensures
        opt_view(r.0) == spec_split_query(q@).0,
        r.1@ == spec_split_query(q@).1,
{
    let v = chars_of(q);
    let (a, b) = trim_range(&v, 0, v.len());
    assert(v@.subrange(0, v@.len() as int) =~= v@);
    let ghost t = v@.subrange(a as int, b as int);
    match find_char(&v, a, b, '>') {
        Some(i) => {
            assert(t.take(i - a) =~= v@.subrange(a as int, i as int));
            assert(t.skip(i - a + 1) =~= v@.subrange(i + 1, b as int));
            let (la, lb) = trim_range(&v, a, i);
            let left = if la == lb {
                None
            } else {
                let low = ascii_lower_range(&v, la, lb);
                Some(string_of(&low))
            };
            let (ra, rb) = trim_range(&v, i + 1, b);
            (left, string_of_range(&v, ra, rb))
        },
        None => {
            let (ra, rb) = trim_range(&v, a, b);
            (None, string_of_range(&v, ra, rb))
        },
    }
}

/// An empty query has no set prefix and an empty needle.
pub proof fn lemma_split_empty()
    ensures
        spec_split_query(Seq::empty()) == (None::<Seq<char>>, Seq::<char>::empty()),
        trim(Seq::<char>::empty()) == Seq::<char>::empty(),
{
    let e = Seq::<char>::empty();
    assert(trim(e) == e);
    assert(index_of(e, '>') is None);
}

// ---------------------------------------------------------------------------
// The set-prefix filter
// ---------------------------------------------------------------------------

/// Whether a glyph named `name` is a candidate under `prefix`: there is no
/// prefix, or the glyph's set, lowered (ASCII), starts with it.
pub open spec fn passes_prefix(name: Seq<char>, prefix: Option<Seq<char>>) -> bool {
    match prefix {
        Some(p) => has_prefix(ascii_lower(spec_set_of(name)), p),
        None => true,
    }
}

/// Whether `g`'s set, lowered (ASCII), starts with `prefix`.
pub fn set_starts_with(g: &Glyph, prefix: &Vec<char>) -> (b: bool)
    ensures
        b == has_prefix(ascii_lower(spec_set_of(g.name@)), prefix@),
{
    let set = chars_of(g.set());
    let low = ascii_lower_range(&set, 0, set.len());
    assert(set@.subrange(0, set@.len() as int) =~= set@);
    let r = starts_with_range(&low, 0, low.len(), prefix);
    assert(low@.subrange(0, low@.len() as int) =~= low@);
    r
}

// ---------------------------------------------------------------------------
// Scores
// ---------------------------------------------------------------------------

/// The best of a list of scores: `None` when none is `Some`, else the
/// largest.
pub open spec fn best_of(scores: Seq<Option<u32>>) -> Option<u32>
    decreases scores.len(),
{
    if scores.len() == 0 {
        None
    } else {
        match (best_of(scores.drop_last()), scores.last()) {
            (Some(x), Some(y)) => Some(if x >= y { x } else { y }),
            (Some(x), None) => Some(x),
            (None, y) => y,
        }
    }
}

/// The best of a glyph's scores: `None` when no search string scored, else
/// the largest score.
pub fn best_score(scores: &Vec<Option<u32>>) -> (r: Option<u32>)
    ensures
        r == best_of(scores@),
        r is None <==> (forall|i: int| 0 <= i < scores@.len() ==> scores@[i] is None),
        r matches Some(m) ==> {
            &&& exists|i: int| 0 <= i < scores@.len() && scores@[i] == Some(m)
            &&& forall|i: int|
                0 <= i < scores@.len() ==> (#[trigger] scores@[i] matches Some(x) ==> x <= m)
        },
{
    let mut best: Option<u32> = None;
    let mut i: usize = 0;
    while i < scores.len()
        invariant
            0 <= i <= scores@.len(),
            best == best_of(scores@.take(i as int)),
            best is None <==> (forall|j: int| 0 <= j < i ==> scores@[j] is None),
            best matches Some(m) ==> {
                &&& exists|j: int| 0 <= j < i && scores@[j] == Some(m)
                &&& forall|j: int| 0 <= j < i ==> (#[trigger] scores@[j] matches Some(x) ==> x <= m)
            },
        decreases scores@.len() - i,
    {
        assert(scores@.take(i + 1).drop_last() =~= scores@.take(i as int));
        match scores[i] {
            Some(sc) => {
                best = match best {
                    Some(b) => if b >= sc {
                        Some(b)
                    } else {
                        Some(sc)
                    },
                    None => Some(sc),
                };
            },
            None => {},
        }
        i = i + 1;
    }
    assert(scores@.take(i as int) =~= scores@);
    best
}

// ---------------------------------------------------------------------------
// Ranking order
// ---------------------------------------------------------------------------

/// Strict lexicographic order on byte strings, as `str`'s `Ord` compares them.
pub open spec fn lex_lt(a: Seq<u8>, b: Seq<u8>) -> bool
    decreases a.len(),
{
    if a.len() == 0 {
        b.len() > 0
    } else if b.len() == 0 {
        false
    } else if a[0] != b[0] {
        a[0] < b[0]
    } else {
        lex_lt(a.drop_first(), b.drop_first())
    }
}

/// The byte order is irreflexive.
pub proof fn lemma_lex_irrefl(a: Seq<u8>)
    ensures
        !lex_lt(a, a),
    decreases a.len(),
{
    if a.len() > 0 {
        lemma_lex_irrefl(a.drop_first());
    }
}

/// The byte order is asymmetric and total.
pub proof fn lemma_lex_asym_total(a: Seq<u8>, b: Seq<u8>)
    ensures
        lex_lt(a, b) ==> !lex_lt(b, a),
        a != b ==> lex_lt(a, b) || lex_lt(b, a),
    decreases a.len(),
{
    if a.len() > 0 && b.len() > 0 {
        lemma_lex_asym_total(a.drop_first(), b.drop_first());
        if a[0] == b[0] && a.drop_first() =~= b.drop_first() {
            assert(a =~= b);
        }
    } else if a.len() == 0 && b.len() == 0 {
        assert(a =~= b);
    }
}

/// The byte order is transitive.
pub proof fn lemma_lex_trans(a: Seq<u8>, b: Seq<u8>, c: Seq<u8>)
    requires
        lex_lt(a, b),
        lex_lt(b, c),
    ensures
        lex_lt(a, c),
    decreases a.len(),
{
    if a.len() > 0 && b.len() > 0 && c.len() > 0 && a[0] == b[0] && b[0] == c[0] {
        lemma_lex_trans(a.drop_first(), b.drop_first(), c.drop_first());
    }
}

/// The byte order is a strict total order.
pub proof fn lemma_lex_order(a: Seq<u8>, b: Seq<u8>, c: Seq<u8>)
    ensures
        !lex_lt(a, a),
        lex_lt(a, b) ==> !lex_lt(b, a),
        a != b ==> lex_lt(a, b) || lex_lt(b, a),
        lex_lt(a, b) && lex_lt(b, c) ==> lex_lt(a, c),
{
    lemma_lex_irrefl(a);
    lemma_lex_asym_total(a, b);
    if lex_lt(a, b) && lex_lt(b, c) {
        lemma_lex_trans(a, b, c);
    }
}

/// The bytes of glyph `i`'s name.
pub open spec fn name_bytes(glyphs: Seq<Glyph>, i: usize) -> Seq<u8> {
    encode_utf8(glyphs[i as int].name@)
}

/// Whether `a` is listed before `b`: higher score first, then shorter name
/// (in bytes), then smaller name (bytewise), then smaller glyph index.
pub open spec fn ranked_before(glyphs: Seq<Glyph>, a: Scored, b: Scored) -> bool {
    let na = name_bytes(glyphs, a.glyph_idx);
    let nb = name_bytes(glyphs, b.glyph_idx);
    ||| a.score > b.score
    ||| a.score == b.score && na.len() < nb.len()
    ||| a.score == b.score && na.len() == nb.len() && lex_lt(na, nb)
    ||| a.score == b.score && na == nb && a.glyph_idx < b.glyph_idx
}

/// The listing order is a strict total order on entries of distinct glyphs.
pub proof fn lemma_ranked_order(glyphs: Seq<Glyph>, a: Scored, b: Scored, c: Scored)
    ensures
        !ranked_before(glyphs, a, a),
        ranked_before(glyphs, a, b) ==> !ranked_before(glyphs, b, a),
        a.glyph_idx != b.glyph_idx ==> ranked_before(glyphs, a, b) || ranked_before(
            glyphs,
            b,
            a,
        ),
        ranked_before(glyphs, a, b) && ranked_before(glyphs, b, c) ==> ranked_before(glyphs, a, c),
{
    let na = name_bytes(glyphs, a.glyph_idx);
    let nb = name_bytes(glyphs, b.glyph_idx);
    let nc = name_bytes(glyphs, c.glyph_idx);
    lemma_lex_order(na, nb, nc);
    lemma_lex_order(nb, na, nc);
    lemma_lex_order(na, na, na);
}

/// Whether `s` is listed in order.
pub open spec fn is_sorted(glyphs: Seq<Glyph>, s: Seq<Scored>) -> bool {
    forall|i: int, j: int| 0 <= i < j < s.len() ==> ranked_before(glyphs, s[i], s[j])
}

/// Whether `sorted` holds the entries of `scored`, listed in order.
pub open spec fn sorts(glyphs: Seq<Glyph>, scored: Seq<Scored>, sorted: Seq<Scored>) -> bool {
    sorted.to_multiset() == scored.to_multiset() && is_sorted(glyphs, sorted)
}

/// Whether the entries of `s` have distinct glyph indices, all in range.
pub open spec fn distinct_in_range(n: nat, s: Seq<Scored>) -> bool {
    &&& forall|i: int| 0 <= i < s.len() ==> (#[trigger] s[i]).glyph_idx < n
    &&& forall|i: int, j: int|
        0 <= i < s.len() && 0 <= j < s.len() && i != j ==> s[i].glyph_idx
            != s[j].glyph_idx
}

/// Compares two byte strings bytewise: `0` when `a` sorts first, `1` when
/// they are equal, `2` when `b` sorts first.
fn compare_bytes(a: &[u8], b: &[u8]) -> (r: u8)
    ensures
        r == 0 <==> lex_lt(a@, b@),
        r == 1 <==> a@ == b@,
        r == 2 <==> lex_lt(b@, a@),
        r <= 2,
{
    proof {
        lemma_lex_order(a@, b@, b@);
    }
    let mut k: usize = 0;
    while k < a.len() && k < b.len() && a[k] == b[k]
        invariant
            0 <= k <= a@.len(),
            k <= b@.len(),
            a@.take(k as int) == b@.take(k as int),
            lex_lt(a@, b@) == lex_lt(a@.skip(k as int), b@.skip(k as int)),
            lex_lt(b@, a@) == lex_lt(b@.skip(k as int), a@.skip(k as int)),
        decreases a@.len() - k,
    {
        assert(a@.skip(k as int).drop_first() =~= a@.skip(k + 1));
        assert(b@.skip(k as int).drop_first() =~= b@.skip(k + 1));
        assert(a@.take(k + 1) =~= a@.take(k as int).push(a@[k as int]));
        assert(b@.take(k + 1) =~= b@.take(k as int).push(b@[k as int]));
        k = k + 1;
    }
    if k == a.len() && k == b.len() {
        assert(a@ =~= a@.take(k as int));
        assert(b@ =~= b@.take(k as int));
        1
    } else if k == a.len() {
        assert(a@.skip(k as int).len() == 0);
        0
    } else if k == b.len() {
        assert(b@.skip(k as int).len() == 0);
        2
    } else if a[k] < b[k] {
        assert(a@.skip(k as int)[0] == a@[k as int]);
        assert(b@.skip(k as int)[0] == b@[k as int]);
        assert(a@ != b@ ) by {
            assert(a@[k as int] != b@[k as int]);
        }
        0
    } else {
        assert(a@.skip(k as int)[0] == a@[k as int]);
        assert(b@.skip(k as int)[0] == b@[k as int]);
        assert(a@ != b@ ) by {
            assert(a@[k as int] != b@[k as int]);
        }
        2
    }
}

/// Whether `a` is listed before `b`.
fn listed_before(glyphs: &[Glyph], a: &Scored, b: &Scored) -> (r: bool)
    requires
        a.glyph_idx < glyphs@.len(),
        b.glyph_idx < glyphs@.len(),
    ensures
        r == ranked_before(glyphs@, *a, *b),
{
    if a.score != b.score {
        return a.score > b.score;
    }
    let na = glyphs[a.glyph_idx].name.as_str().as_bytes();
    let nb = glyphs[b.glyph_idx].name.as_str().as_bytes();
    if na.len() != nb.len() {
        return na.len() < nb.len();
    }
    let c = compare_bytes(na, nb);
    proof {
        lemma_lex_order(na@, nb@, nb@);
    }
    if c == 0 {
        true
    } else if c == 2 {
        false
    } else {
        a.glyph_idx < b.glyph_idx
    }
}

/// `v` in reverse order.
fn reversed(v: Vec<Scored>) -> (r: Vec<Scored>)
    ensures
        r@.len() == v@.len(),
        forall|k: int| 0 <= k < v@.len() ==> #[trigger] r@[k] == v@[v@.len() - 1 - k],
        r@.to_multiset() == v@.to_multiset(),
{
    let ghost all = v@;
    let mut rest = v;
    let mut r: Vec<Scored> = Vec::new();
    while rest.len() > 0
        invariant
            rest@.len() <= all.len(),
            rest@ == all.take(rest@.len() as int),
            rest@.len() + r@.len() == all.len(),
            forall|k: int| 0 <= k < r@.len() ==> #[trigger] r@[k] == all[all.len() - 1 - k],
            r@.to_multiset().add(rest@.to_multiset()) == all.to_multiset(),
        decreases rest@.len(),
    {
        let ghost before_rest = rest@;
        let ghost before_r = r@;
        let x = rest.pop().unwrap();
        proof {
            assert(rest@ =~= all.take(rest@.len() as int));
            assert(before_rest.remove(before_rest.len() - 1) =~= rest@);
            vstd::seq_lib::to_multiset_remove(before_rest, before_rest.len() - 1);
        }
        r.push(x);
        proof {
            vstd::seq_lib::to_multiset_build(before_r, x);
            assert(r@.to_multiset().add(rest@.to_multiset()) =~= before_r.to_multiset().add(
                before_rest.to_multiset(),
            ));
        }
    }
    proof {
        assert(rest@.to_multiset() =~= vstd::multiset::Multiset::<Scored>::empty());
        assert(r@.to_multiset().add(rest@.to_multiset()) =~= r@.to_multiset());
    }
    r
}

/// Merges two listings in order, of entries of distinct glyphs, into one.
fn merge(glyphs: &[Glyph], a: Vec<Scored>, b: Vec<Scored>) -> (r: Vec<Scored>)
    requires
        is_sorted(glyphs@, a@),
        is_sorted(glyphs@, b@),
        forall|i: int| 0 <= i < a@.len() ==> (#[trigger] a@[i]).glyph_idx < glyphs@.len(),
        forall|j: int| 0 <= j < b@.len() ==> (#[trigger] b@[j]).glyph_idx < glyphs@.len(),
        forall|i: int, j: int|
            0 <= i < a@.len() && 0 <= j < b@.len() ==> a@[i].glyph_idx != b@[j].glyph_idx,
    ensures
        is_sorted(glyphs@, r@),
        r@.to_multiset() == a@.to_multiset().add(b@.to_multiset()),
{
    let ghost a0 = a@;
    let ghost b0 = b@;
    let mut a = a;
    let mut b = b;
    let mut rev: Vec<Scored> = Vec::new();
    while a.len() > 0 || b.len() > 0
        invariant
            is_sorted(glyphs@, a0),
            is_sorted(glyphs@, b0),
            forall|i: int| 0 <= i < a0.len() ==> (#[trigger] a0[i]).glyph_idx < glyphs@.len(),
            forall|j: int| 0 <= j < b0.len() ==> (#[trigger] b0[j]).glyph_idx < glyphs@.len(),
            forall|i: int, j: int|
                0 <= i < a0.len() && 0 <= j < b0.len() ==> a0[i].glyph_idx
                    != b0[j].glyph_idx,
            a@.len() <= a0.len(),
            b@.len() <= b0.len(),
            a@ == a0.take(a@.len() as int),
            b@ == b0.take(b@.len() as int),
            forall|i: int, j: int|
                0 <= i < j < rev@.len() ==> ranked_before(glyphs@, rev@[j], rev@[i]),
            forall|i: int, k: int|
                0 <= i < a@.len() && 0 <= k < rev@.len() ==> ranked_before(
                    glyphs@,
                    a0[i],
                    rev@[k],
                ),
            forall|j: int, k: int|
                0 <= j < b@.len() && 0 <= k < rev@.len() ==> ranked_before(
                    glyphs@,
                    b0[j],
                    rev@[k],
                ),
            rev@.to_multiset().add(a@.to_multiset()).add(b@.to_multiset()) == a0.to_multiset().add(
                b0.to_multiset(),
            ),
        decreases a@.len() + b@.len(),
    {
        let na = a.len();
        let nb = b.len();
        let take_a = if na == 0 {
            false
        } else if nb == 0 {
            true
        } else {
            listed_before(glyphs, &b[nb - 1], &a[na - 1])
        };
        let ghost old_a = a@;
        let ghost old_b = b@;
        let ghost old_rev = rev@;
        let x = if take_a {
            a.pop().unwrap()
        } else {
            b.pop().unwrap()
        };
        proof {
            if take_a {
                assert(x == a0[na - 1]);
                assert(a@ =~= a0.take(a@.len() as int));
                assert(old_a.remove(na - 1) =~= a@);
                vstd::seq_lib::to_multiset_remove(old_a, na - 1);
                // Everything left comes before `x`.
                assert forall|i: int| 0 <= i < a@.len() implies ranked_before(
                    glyphs@,
                    #[trigger] a0[i],
                    x,
                ) by {}
                assert forall|j: int| 0 <= j < b@.len() implies ranked_before(
                    glyphs@,
                    #[trigger] b0[j],
                    x,
                ) by {
                    if j < nb - 1 {
                        lemma_ranked_order(glyphs@, b0[j], b0[nb - 1], x);
                    }
                }
            } else {
                assert(x == b0[nb - 1]);
                assert(b@ =~= b0.take(b@.len() as int));
                assert(old_b.remove(nb - 1) =~= b@);
                vstd::seq_lib::to_multiset_remove(old_b, nb - 1);
                if na > 0 {
                    lemma_ranked_order(glyphs@, b0[nb - 1], a0[na - 1], a0[na - 1]);
                }
                assert forall|j: int| 0 <= j < b@.len() implies ranked_before(
                    glyphs@,
                    #[trigger] b0[j],
                    x,
                ) by {}
                assert forall|i: int| 0 <= i < a@.len() implies ranked_before(
                    glyphs@,
                    #[trigger] a0[i],
                    x,
                ) by {
                    if i < na - 1 {
                        lemma_ranked_order(glyphs@, a0[i], a0[na - 1], x);
                    }
                }
            }
        }
        rev.push(x);
        proof {
            vstd::seq_lib::to_multiset_build(old_rev, x);
            if take_a {
                assert(rev@.to_multiset().add(a@.to_multiset()).add(b@.to_multiset())
                    =~= old_rev.to_multiset().add(old_a.to_multiset()).add(old_b.to_multiset()));
            } else {
                assert(rev@.to_multiset().add(a@.to_multiset()).add(b@.to_multiset())
                    =~= old_rev.to_multiset().add(old_a.to_multiset()).add(old_b.to_multiset()));
            }
            assert forall|i: int, j: int| 0 <= i < j < rev@.len() implies ranked_before(
                glyphs@,
                rev@[j],
                rev@[i],
            ) by {
                if j == rev@.len() - 1 {
                    assert(rev@[j] == x);
                    assert(rev@[i] == old_rev[i]);
                    if take_a {
                        assert(ranked_before(glyphs@, a0[na - 1], old_rev[i]));
                    } else {
                        assert(ranked_before(glyphs@, b0[nb - 1], old_rev[i]));
                    }
                } else {
                    assert(rev@[j] == old_rev[j]);
                    assert(rev@[i] == old_rev[i]);
                }
            }
            assert forall|i: int, k: int| 0 <= i < a@.len() && 0 <= k < rev@.len() implies ranked_before(
                glyphs@,
                a0[i],
                rev@[k],
            ) by {
                if k < old_rev.len() {
                    assert(rev@[k] == old_rev[k]);
                }
            }
            assert forall|j: int, k: int| 0 <= j < b@.len() && 0 <= k < rev@.len() implies ranked_before(
                glyphs@,
                b0[j],
                rev@[k],
            ) by {
                if k < old_rev.len() {
                    assert(rev@[k] == old_rev[k]);
                }
            }
        }
    }
    proof {
        assert(a@.to_multiset() =~= vstd::multiset::Multiset::<Scored>::empty());
        assert(b@.to_multiset() =~= vstd::multiset::Multiset::<Scored>::empty());
        assert(rev@.to_multiset().add(a@.to_multiset()).add(b@.to_multiset()) =~= rev@.to_multiset());
    }
    let r = reversed(rev);
    proof {
        let n = r@.len();
        assert forall|i: int, j: int| 0 <= i < j < n implies ranked_before(glyphs@, r@[i], r@[j]) by {
            assert(r@[i] == rev@[n - 1 - i]);
            assert(r@[j] == rev@[n - 1 - j]);
        }
    }
    r
}

/// `v` listed in order: a merge sort.
fn sort_scored(glyphs: &[Glyph], v: Vec<Scored>) -> (r: Vec<Scored>)
    requires
        distinct_in_range(glyphs@.len(), v@),
    ensures
        sorts(glyphs@, v@, r@),
        distinct_in_range(glyphs@.len(), r@),
    decreases v@.len(),
{
    if v.len() <= 1 {
        return v;
    }
    let ghost all = v@;
    let mut left = v;
    let mid = left.len() / 2;
    let right = left.split_off(mid);
    proof {
        assert(all =~= left@ + right@);
        vstd::seq_lib::lemma_multiset_commutative(left@, right@);
        assert forall|i: int, j: int|
            0 <= i < left@.len() && 0 <= j < left@.len() && i != j implies left@[i].glyph_idx
            != left@[j].glyph_idx by {
            assert(left@[i] == all[i]);
            assert(left@[j] == all[j]);
        }
        assert forall|i: int, j: int|
            0 <= i < right@.len() && 0 <= j < right@.len() && i != j implies right@[i].glyph_idx
            != right@[j].glyph_idx by {
            assert(right@[i] == all[mid + i]);
            assert(right@[j] == all[mid + j]);
        }
        assert forall|i: int| 0 <= i < left@.len() implies (#[trigger] left@[i]).glyph_idx
            < glyphs@.len() by {
            assert(left@[i] == all[i]);
        }
        assert forall|i: int| 0 <= i < right@.len() implies (#[trigger] right@[i]).glyph_idx
            < glyphs@.len() by {
            assert(right@[i] == all[mid + i]);
        }
    }
    let ghost lv = left@;
    let ghost rv = right@;
    let a = sort_scored(glyphs, left);
    let b = sort_scored(glyphs, right);
    proof {
        assert forall|i: int, j: int|
            0 <= i < a@.len() && 0 <= j < b@.len() implies a@[i].glyph_idx
            != b@[j].glyph_idx by {
            vstd::seq_lib::to_multiset_contains(a@, a@[i]);
            vstd::seq_lib::to_multiset_contains(lv, a@[i]);
            vstd::seq_lib::to_multiset_contains(b@, b@[j]);
            vstd::seq_lib::to_multiset_contains(rv, b@[j]);
            assert(a@.contains(a@[i]));
            assert(b@.contains(b@[j]));
            let p = choose|p: int| 0 <= p < lv.len() && lv[p] == a@[i];
            let q = choose|q: int| 0 <= q < rv.len() && rv[q] == b@[j];
            assert(lv[p] == all[p]);
            assert(rv[q] == all[mid + q]);
        }
    }
    let r = merge(glyphs, a, b);
    proof {
        assert forall|i: int| 0 <= i < r@.len() implies (#[trigger] r@[i]).glyph_idx < glyphs@.len()
            && exists|p: int| 0 <= p < all.len() && all[p] == r@[i] by {
            vstd::seq_lib::to_multiset_contains(r@, r@[i]);
            vstd::seq_lib::to_multiset_contains(all, r@[i]);
            assert(r@.contains(r@[i]));
        }
        assert forall|i: int, j: int|
            0 <= i < r@.len() && 0 <= j < r@.len() && i != j implies r@[i].glyph_idx
            != r@[j].glyph_idx by {
            if i < j {
                assert(ranked_before(glyphs@, r@[i], r@[j]));
            } else {
                assert(ranked_before(glyphs@, r@[j], r@[i]));
            }
            if r@[i].glyph_idx == r@[j].glyph_idx {
                let p = choose|p: int| 0 <= p < all.len() && all[p] == r@[i];
                let q = choose|q: int| 0 <= q < all.len() && all[q] == r@[j];
                lemma_ranked_order(glyphs@, r@[i], r@[j], r@[i]);
                if p == q {
                    assert(r@[i] == r@[j]);
                }
            }
        }
    }
    r
}

/// Lists `scored` in the listing order: higher score first, ties broken by
/// name length, then by name, then by glyph index.
pub fn rank(glyphs: &[Glyph], scored: Vec<Scored>) -> (r: Vec<Scored>)
    requires
        distinct_in_range(glyphs@.len(), scored@),
    ensures
        sorts(glyphs@, scored@, r@),
        distinct_in_range(glyphs@.len(), r@),
{
    sort_scored(glyphs, scored)
}

// ---------------------------------------------------------------------------
// Listing the glyphs that score
// ---------------------------------------------------------------------------

/// The entries of the glyphs that have a score, in index order: glyph `i`
/// with score `s` for each `bests[i] == Some(s)`.
pub open spec fn keys_of(bests: Seq<Option<u32>>) -> Seq<Scored>
    decreases bests.len(),
{
    if bests.len() == 0 {
        Seq::empty()
    } else {
        let rest = keys_of(bests.drop_last());
        match bests.last() {
            Some(s) => rest.push(Scored { glyph_idx: (bests.len() - 1) as usize, score: s }),
            None => rest,
        }
    }
}

/// The best score of each glyph's list of scores.
pub open spec fn best_scores(scores: Seq<Vec<Option<u32>>>) -> Seq<Option<u32>> {
    scores.map_values(|v: Vec<Option<u32>>| best_of(v@))
}

/// The highlight positions of each glyph.
pub open spec fn marks_views(marks: Seq<Vec<u32>>) -> Seq<Seq<u32>> {
    marks.map_values(|v: Vec<u32>| v@)
}

/// Whether `hits` gives, entry by entry, the glyph of each entry of `t`, with
/// that glyph's highlight positions from `marks`.
pub open spec fn lists(t: Seq<Scored>, marks: Seq<Seq<u32>>, hits: Seq<Hit>) -> bool {
    &&& hits.len() == t.len()
    &&& forall|k: int|
        0 <= k < t.len() ==> (#[trigger] hits[k]).glyph_idx == t[k].glyph_idx
            && hits[k].name_indices@ == marks[t[k].glyph_idx as int]
}

/// Whether `hits` lists the glyphs that have a score in `bests`, each once, in
/// the listing order of those scores, each with its positions from `marks`.
pub open spec fn ranked_hits(
    glyphs: Seq<Glyph>,
    bests: Seq<Option<u32>>,
    marks: Seq<Seq<u32>>,
    hits: Seq<Hit>,
) -> bool {
    exists|t: Seq<Scored>| #[trigger] sorts(glyphs, keys_of(bests), t) && lists(t, marks, hits)
}

/// The entries of [`keys_of`] are in increasing glyph order, each with the
/// glyph's score, and every glyph with a score has one.
pub proof fn lemma_keys_of(bests: Seq<Option<u32>>)
    requires
        bests.len() <= usize::MAX,
    ensures
        distinct_in_range(bests.len(), keys_of(bests)),
        forall|k: int, l: int|
            0 <= k < l < keys_of(bests).len() ==> keys_of(bests)[k].glyph_idx
                < keys_of(bests)[l].glyph_idx,
        forall|k: int|
            0 <= k < keys_of(bests).len() ==> bests[(#[trigger] keys_of(bests)[k]).glyph_idx as int]
                == Some(keys_of(bests)[k].score),
        forall|i: int|
            0 <= i < bests.len() && (#[trigger] bests[i]) is Some ==> exists|k: int|
                0 <= k < keys_of(bests).len() && keys_of(bests)[k].glyph_idx == i,
    decreases bests.len(),
{
    if bests.len() > 0 {
        let d = bests.drop_last();
        lemma_keys_of(d);
        let rest = keys_of(d);
        let n = bests.len() - 1;
        assert forall|i: int| 0 <= i < bests.len() && (#[trigger] bests[i]) is Some implies exists|k: int|
            0 <= k < keys_of(bests).len() && keys_of(bests)[k].glyph_idx == i by {
            if i < n {
                assert(d[i] == bests[i]);
                let k = choose|k: int| 0 <= k < rest.len() && rest[k].glyph_idx == i;
                assert(keys_of(bests)[k] == rest[k]);
            } else {
                assert(keys_of(bests)[rest.len() as int].glyph_idx == i);
            }
        }
        assert forall|k: int|
            0 <= k < keys_of(bests).len() implies bests[(#[trigger] keys_of(bests)[k]).glyph_idx as int]
                == Some(keys_of(bests)[k].score) by {
            if k < rest.len() {
                assert(keys_of(bests)[k] == rest[k]);
                assert(d[rest[k].glyph_idx as int] == bests[rest[k].glyph_idx as int]);
            }
        }
        assert forall|k: int, l: int|
            0 <= k < keys_of(bests).len() && 0 <= l < keys_of(bests).len() && k != l implies keys_of(
            bests,
        )[k].glyph_idx != keys_of(bests)[l].glyph_idx by {
            if k < rest.len() && l < rest.len() {
                assert(keys_of(bests)[k] == rest[k]);
                assert(keys_of(bests)[l] == rest[l]);
            } else if k < rest.len() {
                assert(keys_of(bests)[k] == rest[k]);
            } else if l < rest.len() {
                assert(keys_of(bests)[l] == rest[l]);
            }
        }
        assert forall|k: int, l: int|
            0 <= k < l < keys_of(bests).len() implies keys_of(bests)[k].glyph_idx < keys_of(
            bests,
        )[l].glyph_idx by {
            assert(keys_of(bests)[k] == rest[k]);
            if l < rest.len() {
                assert(keys_of(bests)[l] == rest[l]);
            }
        }
        assert forall|k: int| 0 <= k < keys_of(bests).len() implies (#[trigger] keys_of(
            bests,
        )[k]).glyph_idx < bests.len() by {
            if k < rest.len() {
                assert(keys_of(bests)[k] == rest[k]);
            }
        }
    }
}

/// Lists the glyphs that have a score: glyph `i` is listed when the best of
/// `scores[i]` is `Some`, ranked by that best score (then by name length,
/// name and index), with `marks[i]` as its highlight positions.
pub fn rank_scores(glyphs: &[Glyph], scores: &Vec<Vec<Option<u32>>>, marks: &Vec<Vec<u32>>) -> (hits:
    Vec<Hit>)
    requires
        scores@.len() == glyphs@.len(),
        marks@.len() == glyphs@.len(),
    ensures
        ranked_hits(glyphs@, best_scores(scores@), marks_views(marks@), hits@),
{
    let ghost bests = best_scores(scores@);
    let mut keys: Vec<Scored> = Vec::new();
    let mut i: usize = 0;
    while i < scores.len()
        invariant
            0 <= i <= scores@.len(),
            bests == best_scores(scores@),
            keys@ == keys_of(bests.take(i as int)),
        decreases scores@.len() - i,
    {
        assert(bests.take(i + 1).drop_last() =~= bests.take(i as int));
        match best_score(&scores[i]) {
            Some(sc) => {
                keys.push(Scored { glyph_idx: i, score: sc });
            },
            None => {},
        }
        i = i + 1;
    }
    assert(bests.take(i as int) =~= bests);
    proof {
        lemma_keys_of(bests);
    }
    let t = rank(glyphs, keys);
    let mut hits: Vec<Hit> = Vec::new();
    let mut j: usize = 0;
    while j < t.len()
        invariant
            0 <= j <= t@.len(),
            hits@.len() == j,
            marks@.len() == glyphs@.len(),
            distinct_in_range(glyphs@.len(), t@),
            forall|k: int|
                0 <= k < j ==> (#[trigger] hits@[k]).glyph_idx == t@[k].glyph_idx
                    && hits@[k].name_indices@ == marks@[t@[k].glyph_idx as int]@,
        decreases t@.len() - j,
    {
        let gi = t[j].glyph_idx;
        let m = marks[gi].clone();
        assert(m@ =~= marks@[gi as int]@);
        hits.push(Hit { glyph_idx: gi, name_indices: m });
        j = j + 1;
    }
    assert(lists(t@, marks_views(marks@), hits@));
    hits
}

// ---------------------------------------------------------------------------
// Filtering
// ---------------------------------------------------------------------------

/// The hits of every glyph in natural order, with no highlight positions.
pub open spec fn all_hits(n: nat, hits: Seq<Hit>) -> bool {
    &&& hits.len() == n
    &&& forall|i: int| 0 <= i < n ==> (#[trigger] hits[i]).glyph_idx == i && hits[i].name_indices@.len() == 0
}

/// What one search string scores for `needle`: `Some(0)` for an empty
/// needle, nucleo's score where its arithmetic fits, and no score elsewhere.
pub open spec fn string_score(needle: Seq<char>, s: Seq<char>) -> Option<u32> {
    if needle.len() == 0 {
        Some(0)
    } else if score_fits(needle, s) {
        nucleo_score(needle, s)
    } else {
        None
    }
}

/// The scores of a list of search strings.
pub open spec fn string_scores(needle: Seq<char>, strings: Seq<Seq<char>>) -> Seq<Option<u32>> {
    strings.map_values(|s: Seq<char>| string_score(needle, s))
}

/// What glyph `g` scores for `needle`: the best score of its search strings.
pub open spec fn glyph_score(needle: Seq<char>, g: Glyph) -> Option<u32> {
    best_of(string_scores(needle, spec_search_strings(g.name@, g.codepoint)))
}

/// The score of each glyph for a query: its [`glyph_score`] when it passes
/// the set prefix, and none otherwise.
pub open spec fn query_bests(glyphs: Seq<Glyph>, prefix: Option<Seq<char>>, needle: Seq<char>) -> Seq<
    Option<u32>,
> {
    Seq::new(
        glyphs.len(),
        |i: int|
            if passes_prefix(glyphs[i].name@, prefix) {
                glyph_score(needle, glyphs[i])
            } else {
                None
            },
    )
}

/// The case and normalisation settings that nucleo is left with after a
/// glyph's search strings are scored in turn: those that the last scored
/// string leaves, when known.
pub open spec fn last_settings(needle: Seq<char>, strings: Seq<Seq<char>>) -> Option<(bool, bool)>
    decreases strings.len(),
{
    if strings.len() == 0 {
        None
    } else if score_fits(needle, strings.last()) {
        nucleo_settings(needle, strings.last())
    } else {
        last_settings(needle, strings.drop_last())
    }
}

/// Whether `m` is the highlight positions of glyph `i`: positions of
/// characters of its name; none when the needle is empty, the glyph is not
/// listed, or nucleo's arithmetic might overflow on the lowered needle;
/// otherwise what nucleo's `fuzzy_indices` gives for the lowered needle in
/// the name, under the settings that scoring the glyph left in the matcher.
pub open spec fn highlight_ok(
    glyphs: Seq<Glyph>,
    prefix: Option<Seq<char>>,
    needle: Seq<char>,
    i: int,
    m: Seq<u32>,
) -> bool {
    let g = glyphs[i];
    let lowered = unicode_lowercase(needle);
    &&& forall|x: int| 0 <= x < m.len() ==> (#[trigger] m[x] as int) < g.name@.len()
    &&& if needle.len() == 0 || !passes_prefix(g.name@, prefix) || glyph_score(needle, g) is None
        || !indices_fit(lowered, g.name@) {
        m.len() == 0
    } else {
        exists|st: (bool, bool)|
            #[trigger] nucleo_indices(st.0, st.1, g.name@, lowered) == m && (last_settings(
                needle,
                spec_search_strings(g.name@, g.codepoint),
            ) matches Some(x) ==> st == x)
    }
}

/// Whether `marks` is the highlight positions of all the glyphs.
pub open spec fn marks_fit(
    glyphs: Seq<Glyph>,
    prefix: Option<Seq<char>>,
    needle: Seq<char>,
    marks: Seq<Seq<u32>>,
) -> bool {
    &&& marks.len() == glyphs.len()
    &&& forall|i: int|
        0 <= i < glyphs.len() ==> highlight_ok(glyphs, prefix, needle, i, #[trigger] marks[i])
}

/// Whether `query` has neither a set prefix nor a needle.
pub open spec fn blank_query(query: Seq<char>) -> bool {
    spec_split_query(query).0 is None && trim(spec_split_query(query).1).len() == 0
}

/// What [`filter`] returns for `query`. A blank query (no set prefix and a
/// blank needle) lists every glyph in natural order with no highlights.
/// Otherwise it lists each glyph that passes the set prefix and scores for
/// the needle, once, in the listing order of those scores; the positions
/// that nucleo highlights are positions in the glyph's name, and there are
/// none for an empty needle.
pub open spec fn filter_outcome(glyphs: Seq<Glyph>, query: Seq<char>, hits: Seq<Hit>) -> bool {
    let prefix = spec_split_query(query).0;
    let needle = trim(spec_split_query(query).1);
    if blank_query(query) {
        all_hits(glyphs.len(), hits)
    } else {
        exists|marks: Seq<Seq<u32>>| #[trigger]
            marks_fit(glyphs, prefix, needle, marks) && ranked_hits(
                glyphs,
                query_bests(glyphs, prefix, needle),
                marks,
                hits,
            )
    }
}

/// Build the filtered, score-ordered list of glyph hits for `query`.
///
/// Recognizes a leading `set>` prefix and restricts candidates to glyphs whose
/// `set` starts with that prefix (case-insensitive). The remainder of the
/// query is fuzzy-matched against the canonical name, the hex codepoint, and
/// every alias; a glyph's score is its best one. A search string on which
/// nucleo's score arithmetic could overflow (see [`score_fits`]) is not
/// scored, and no positions are highlighted where it could overflow.
///
/// An empty/blank query returns every glyph in natural (snapshot) order with no
/// scoring and no highlight indices.
pub fn filter(glyphs: &[Glyph], query: &str, matcher: &mut FuzzyMatcher) -> (hits: Vec<Hit>)
    ensures
        filter_outcome(glyphs@, query@, hits@),
{
    let (set_prefix, search) = split_query(query);
    let sv = chars_of(search.as_str());
    let (a, b) = trim_range(&sv, 0, sv.len());
    assert(sv@.subrange(0, sv@.len() as int) =~= sv@);
    let needle = string_of_range(&sv, a, b);
    let ghost prefix = spec_split_query(query@).0;
    let ghost needle_v = trim(spec_split_query(query@).1);
    assert(needle@ == needle_v);
    if set_prefix.is_none() && a == b {
        let mut all: Vec<Hit> = Vec::new();
        let mut i: usize = 0;
        while i < glyphs.len()
            invariant
                0 <= i <= glyphs@.len(),
                all@.len() == i,
                forall|j: int|
                    0 <= j < i ==> (#[trigger] all@[j]).glyph_idx == j && all@[j].name_indices@.len()
                        == 0,
            decreases glyphs@.len() - i,
        {
            all.push(Hit { glyph_idx: i, name_indices: Vec::new() });
            i = i + 1;
        }
        return all;
    }
    let prefix_chars: Option<Vec<char>> = match &set_prefix {
        Some(p) => Some(chars_of(p.as_str())),
        None => None,
    };
    let lowered = to_lowercase(needle.as_str());
    let ghost bests = query_bests(glyphs@, prefix, needle_v);
    let mut scores: Vec<Vec<Option<u32>>> = Vec::new();
    let mut marks: Vec<Vec<u32>> = Vec::new();
    // The case and normalisation settings that the last scoring left.
    let mut settings: (bool, bool) = (true, true);
    let mut i: usize = 0;
    while i < glyphs.len()
        invariant
            0 <= i <= glyphs@.len(),
            prefix == opt_view(set_prefix),
            match prefix_chars {
                Some(pc) => prefix == Some(pc@),
                None => prefix is None,
            },
            needle@ == needle_v,
            lowered@ == unicode_lowercase(needle_v),
            a <= b,
            needle_v.len() == b - a,
            bests == query_bests(glyphs@, prefix, needle_v),
            scores@.len() == i,
            marks@.len() == i,
            forall|j: int| 0 <= j < i ==> best_of((#[trigger] scores@[j])@) == bests[j],
            forall|j: int| 0 <= j < i ==> highlight_ok(glyphs@, prefix, needle_v, j, (#[trigger] marks@[j])@),
        decreases glyphs@.len() - i,
    {
        let g = &glyphs[i];
        let keep = match &prefix_chars {
            Some(pc) => set_starts_with(g, pc),
            None => true,
        };
        assert(keep == passes_prefix(glyphs@[i as int].name@, prefix));
        let mut row: Vec<Option<u32>> = Vec::new();
        let mut name_idx: Vec<u32> = Vec::new();
        if keep {
            let strings = g.search_strings();
            let ghost views = string_views(strings@);
            let mut k: usize = 0;
            while k < strings.len()
                invariant
                    0 <= k <= strings@.len(),
                    views == string_views(strings@),
                    needle@ == needle_v,
                    needle_v.len() == b - a,
                    a <= b,
                    row@ == string_scores(needle_v, views.take(k as int)),
                    last_settings(needle_v, views.take(k as int)) matches Some(x) ==> settings == x,
                decreases strings@.len() - k,
            {
                let s = strings[k].as_str();
                let n = b - a;
                let h = s.as_bytes().len();
                let sc = if n == 0 || (h <= 0xFFFF_FFFF && n <= 0x400_0000 && (n <= 2520 || h
                    <= 2520)) {
                    let (sc, after) = pattern_score(needle.as_str(), s, matcher);
                    settings = after;
                    sc
                } else {
                    None
                };
                row.push(sc);
                assert(views.take(k + 1).drop_last() =~= views.take(k as int));
                assert(views.take(k + 1) =~= views.take(k as int).push(views[k as int]));
                assert(string_scores(needle_v, views.take(k + 1)) =~= string_scores(
                    needle_v,
                    views.take(k as int),
                ).push(string_score(needle_v, views[k as int])));
                k = k + 1;
            }
            assert(views.take(k as int) =~= views);
            if best_score(&row).is_some() && a < b {
                let chars = chars_of(g.name.as_str());
                if chars.len() <= 0xFFFF_FFFF && (lowered.as_str().as_bytes().len() <= 2520
                    || chars.len() <= 2520) {
                    fuzzy_indices(matcher, settings, &chars, lowered.as_str(), &mut name_idx);
                    assert(name_idx@ =~= nucleo_indices(
                        settings.0,
                        settings.1,
                        glyphs@[i as int].name@,
                        unicode_lowercase(needle_v),
                    ));
                }
            }
        } else {
            assert(row@ =~= Seq::<Option<u32>>::empty());
        }
        assert(best_of(row@) == bests[i as int]);
        assert(highlight_ok(glyphs@, prefix, needle_v, i as int, name_idx@));
        let ghost old_scores = scores@;
        let ghost old_marks = marks@;
        scores.push(row);
        marks.push(name_idx);
        proof {
            assert forall|j: int| 0 <= j < i + 1 implies best_of((#[trigger] scores@[j])@) == bests[j] by {
                if j < i {
                    assert(scores@[j] == old_scores[j]);
                }
            }
            assert forall|j: int| 0 <= j < i + 1 implies highlight_ok(
                glyphs@,
                prefix,
                needle_v,
                j,
                (#[trigger] marks@[j])@,
            ) by {
                if j < i {
                    assert(marks@[j] == old_marks[j]);
                }
            }
        }
        i = i + 1;
    }
    let hits = rank_scores(glyphs, &scores, &marks);
    proof {
        assert(best_scores(scores@) =~= bests);
        assert(marks_fit(glyphs@, prefix, needle_v, marks_views(marks@)));
    }
    hits
}

// ---------------------------------------------------------------------------
// Laws
// ---------------------------------------------------------------------------

/// Two listings in order of the same entries are the same listing.
pub proof fn lemma_sorted_unique(glyphs: Seq<Glyph>, a: Seq<Scored>, b: Seq<Scored>)
    requires
        a.to_multiset() == b.to_multiset(),
        is_sorted(glyphs, a),
        is_sorted(glyphs, b),
    ensures
        a == b,
    decreases a.len(),
{
    vstd::seq_lib::to_multiset_len(a);
    vstd::seq_lib::to_multiset_len(b);
    if a.len() == 0 {
        assert(a =~= b);
    } else {
        let x = a[0];
        let y = b[0];
        vstd::seq_lib::to_multiset_contains(a, x);
        vstd::seq_lib::to_multiset_contains(b, x);
        vstd::seq_lib::to_multiset_contains(a, y);
        vstd::seq_lib::to_multiset_contains(b, y);
        assert(a.contains(x));
        assert(b.contains(x));
        assert(a.contains(y));
        let j = choose|j: int| 0 <= j < b.len() && b[j] == x;
        let i = choose|i: int| 0 <= i < a.len() && a[i] == y;
        lemma_ranked_order(glyphs, x, y, x);
        if j > 0 && i > 0 {
            assert(ranked_before(glyphs, y, x));
            assert(ranked_before(glyphs, x, y));
        } else if j > 0 {
            assert(ranked_before(glyphs, b[0], b[j]));
        } else if i > 0 {
            assert(ranked_before(glyphs, a[0], a[i]));
        }
        assert(x == y);
        vstd::seq_lib::to_multiset_remove(a, 0);
        vstd::seq_lib::to_multiset_remove(b, 0);
        assert(a.remove(0) =~= a.drop_first());
        assert(b.remove(0) =~= b.drop_first());
        lemma_sorted_unique(glyphs, a.drop_first(), b.drop_first());
        assert(a =~= b) by {
            assert forall|k: int| 0 <= k < a.len() implies a[k] == b[k] by {
                if k > 0 {
                    assert(a[k] == a.drop_first()[k - 1]);
                    assert(b[k] == b.drop_first()[k - 1]);
                }
            }
        }
    }
}

/// [`filter`]'s list is determined by the glyphs and the query: two lists
/// that it may return name the same glyphs in the same order.
pub proof fn lemma_filter_unique(glyphs: Seq<Glyph>, query: Seq<char>, h1: Seq<Hit>, h2: Seq<Hit>)
    requires
        filter_outcome(glyphs, query, h1),
        filter_outcome(glyphs, query, h2),
    ensures
        h1.len() == h2.len(),
        forall|k: int| 0 <= k < h1.len() ==> (#[trigger] h1[k]).glyph_idx == h2[k].glyph_idx,
{
    if !blank_query(query) {
        let prefix = spec_split_query(query).0;
        let needle = trim(spec_split_query(query).1);
        let bests = query_bests(glyphs, prefix, needle);
        let m1 = choose|m: Seq<Seq<u32>>| #[trigger]
            marks_fit(glyphs, prefix, needle, m) && ranked_hits(glyphs, bests, m, h1);
        let m2 = choose|m: Seq<Seq<u32>>| #[trigger]
            marks_fit(glyphs, prefix, needle, m) && ranked_hits(glyphs, bests, m, h2);
        let t1 = choose|t: Seq<Scored>| #[trigger] sorts(glyphs, keys_of(bests), t) && lists(t, m1, h1);
        let t2 = choose|t: Seq<Scored>| #[trigger] sorts(glyphs, keys_of(bests), t) && lists(t, m2, h2);
        lemma_sorted_unique(glyphs, t1, t2);
    }
}

/// A blank query (only white space, or nothing) lists every glyph in natural
/// order with no highlights.
pub proof fn lemma_blank_query_lists_all(glyphs: Seq<Glyph>, q: Seq<char>, hits: Seq<Hit>)
    requires
        all_ws(q),
        filter_outcome(glyphs, q, hits),
    ensures
        all_hits(glyphs.len(), hits),
{
    lemma_trim_empty_iff_all_ws(q);
    let t = trim(q);
    assert(t =~= Seq::<char>::empty());
    lemma_split_empty();
    assert(index_of(t, '>') is None);
}

/// For any query that is not blank, [`filter`] lists exactly the glyphs that
/// pass the set prefix and score for the needle, each once, with a higher
/// score never listed after a lower one.
pub proof fn lemma_filter_lists_exactly(glyphs: Seq<Glyph>, query: Seq<char>, hits: Seq<Hit>)
    requires
        !blank_query(query),
        filter_outcome(glyphs, query, hits),
        glyphs.len() <= usize::MAX,
    ensures
        forall|i: int|
            0 <= i < glyphs.len() ==> ((exists|k: int|
                0 <= k < hits.len() && (#[trigger] hits[k]).glyph_idx == i) <==> (passes_prefix(
                glyphs[i].name@,
                spec_split_query(query).0,
            ) && glyph_score(trim(spec_split_query(query).1), glyphs[i]) is Some)),
        forall|k: int, l: int|
            0 <= k < hits.len() && 0 <= l < hits.len() && k != l ==> hits[k].glyph_idx
                != hits[l].glyph_idx,
        forall|k: int, l: int|
            0 <= k < l < hits.len() ==> glyph_score(
                trim(spec_split_query(query).1),
                glyphs[hits[l].glyph_idx as int],
            ).unwrap() <= glyph_score(
                trim(spec_split_query(query).1),
                glyphs[hits[k].glyph_idx as int],
            ).unwrap(),
{
    let prefix = spec_split_query(query).0;
    let needle = trim(spec_split_query(query).1);
    let bests = query_bests(glyphs, prefix, needle);
    let m = choose|m: Seq<Seq<u32>>| #[trigger]
        marks_fit(glyphs, prefix, needle, m) && ranked_hits(glyphs, bests, m, hits);
    let t = choose|t: Seq<Scored>| #[trigger] sorts(glyphs, keys_of(bests), t) && lists(t, m, hits);
    let keys = keys_of(bests);
    lemma_keys_of(bests);
    // `t` holds the entries of `keys`, and `keys` those of `t`.
    assert forall|k: int| 0 <= k < t.len() implies keys.contains(#[trigger] t[k]) by {
        vstd::seq_lib::to_multiset_contains(t, t[k]);
        vstd::seq_lib::to_multiset_contains(keys, t[k]);
    }
    assert forall|k: int| 0 <= k < keys.len() implies t.contains(#[trigger] keys[k]) by {
        vstd::seq_lib::to_multiset_contains(keys, keys[k]);
        vstd::seq_lib::to_multiset_contains(t, keys[k]);
    }
    assert forall|i: int| 0 <= i < glyphs.len() implies ((exists|k: int|
        0 <= k < hits.len() && (#[trigger] hits[k]).glyph_idx == i) <==> (passes_prefix(
        glyphs[i].name@,
        prefix,
    ) && glyph_score(needle, glyphs[i]) is Some)) by {
        assert(bests[i] == (if passes_prefix(glyphs[i].name@, prefix) {
            glyph_score(needle, glyphs[i])
        } else {
            None
        }));
        if exists|k: int| 0 <= k < hits.len() && (#[trigger] hits[k]).glyph_idx == i {
            let k = choose|k: int| 0 <= k < hits.len() && (#[trigger] hits[k]).glyph_idx == i;
            assert(keys.contains(t[k]));
            let p = choose|p: int| 0 <= p < keys.len() && keys[p] == t[k];
            assert(bests[keys[p].glyph_idx as int] == Some(keys[p].score));
        }
        if bests[i] is Some {
            let p = choose|p: int| 0 <= p < keys.len() && keys[p].glyph_idx == i;
            assert(t.contains(keys[p]));
            let k = choose|k: int| 0 <= k < t.len() && t[k] == keys[p];
            assert(hits[k].glyph_idx == i);
        }
    }
    assert forall|k: int| 0 <= k < t.len() implies bests[(#[trigger] t[k]).glyph_idx as int] == Some(
        t[k].score,
    ) by {
        assert(keys.contains(t[k]));
        let p = choose|p: int| 0 <= p < keys.len() && keys[p] == t[k];
    }
    assert forall|k: int, l: int|
        0 <= k < hits.len() && 0 <= l < hits.len() && k != l implies hits[k].glyph_idx
        != hits[l].glyph_idx by {
        if k < l {
            assert(ranked_before(glyphs, t[k], t[l]));
        } else {
            assert(ranked_before(glyphs, t[l], t[k]));
        }
        lemma_ranked_order(glyphs, t[k], t[l], t[k]);
        lemma_ranked_order(glyphs, t[l], t[k], t[l]);
        if t[k].glyph_idx == t[l].glyph_idx {
            assert(bests[t[k].glyph_idx as int] == Some(t[k].score));
            assert(bests[t[l].glyph_idx as int] == Some(t[l].score));
        }
    }
    assert forall|k: int, l: int| 0 <= k < l < hits.len() implies glyph_score(
        needle,
        glyphs[hits[l].glyph_idx as int],
    ).unwrap() <= glyph_score(needle, glyphs[hits[k].glyph_idx as int]).unwrap() by {
        assert(ranked_before(glyphs, t[k], t[l]));
        assert(bests[t[k].glyph_idx as int] == Some(t[k].score));
        assert(bests[t[l].glyph_idx as int] == Some(t[l].score));
    }
}

/// With a set prefix `p`, every glyph that [`filter`] lists has a set whose
/// first characters, lowered (ASCII), are those of `p`.
pub proof fn lemma_filter_keeps_to_set_prefix(
    glyphs: Seq<Glyph>,
    query: Seq<char>,
    hits: Seq<Hit>,
    p: Seq<char>,
)
    requires
        spec_split_query(query).0 == Some(p),
        filter_outcome(glyphs, query, hits),
        glyphs.len() <= usize::MAX,
    ensures
        forall|k: int|
            0 <= k < hits.len() ==> {
                let set = spec_set_of(glyphs[(#[trigger] hits[k]).glyph_idx as int].name@);
                &&& hits[k].glyph_idx < glyphs.len()
                &&& p.len() <= set.len()
                &&& forall|j: int| 0 <= j < p.len() ==> lower_ascii_char(set[j]) == p[j]
            },
{
    let needle = trim(spec_split_query(query).1);
    let prefix = spec_split_query(query).0;
    let bests = query_bests(glyphs, prefix, needle);
    let m = choose|m: Seq<Seq<u32>>| #[trigger]
        marks_fit(glyphs, prefix, needle, m) && ranked_hits(glyphs, bests, m, hits);
    let t = choose|t: Seq<Scored>| #[trigger] sorts(glyphs, keys_of(bests), t) && lists(t, m, hits);
    let keys = keys_of(bests);
    lemma_keys_of(bests);
    assert forall|k: int| 0 <= k < hits.len() implies {
        let set = spec_set_of(glyphs[(#[trigger] hits[k]).glyph_idx as int].name@);
        &&& hits[k].glyph_idx < glyphs.len()
        &&& p.len() <= set.len()
        &&& forall|j: int| 0 <= j < p.len() ==> lower_ascii_char(set[j]) == p[j]
    } by {
        vstd::seq_lib::to_multiset_contains(t, t[k]);
        vstd::seq_lib::to_multiset_contains(keys, t[k]);
        assert(keys.contains(t[k]));
        let x = choose|x: int| 0 <= x < keys.len() && keys[x] == t[k];
        assert(bests[keys[x].glyph_idx as int] == Some(keys[x].score));
        let i = hits[k].glyph_idx as int;
        assert(passes_prefix(glyphs[i].name@, prefix));
        let set = spec_set_of(glyphs[i].name@);
        assert(has_prefix(ascii_lower(set), p));
        assert forall|j: int| 0 <= j < p.len() implies lower_ascii_char(set[j]) == p[j] by {
            assert(ascii_lower(set).take(p.len() as int)[j] == p[j]);
        }
    }
}

/// The best of a non-empty list of scores that are all `Some(0)` is `Some(0)`.
proof fn lemma_best_of_zeros(scores: Seq<Option<u32>>)
    requires
        scores.len() > 0,
        forall|i: int| 0 <= i < scores.len() ==> #[trigger] scores[i] == Some(0u32),
    ensures
        best_of(scores) == Some(0u32),
    decreases scores.len(),
{
    let d = scores.drop_last();
    assert(scores[scores.len() - 1] == Some(0u32));
    if scores.len() > 1 {
        assert forall|i: int| 0 <= i < d.len() implies #[trigger] d[i] == Some(0u32) by {
            assert(scores[i] == Some(0u32));
        }
        lemma_best_of_zeros(d);
    } else {
        assert(d.len() == 0);
    }
}

/// With a set prefix and an empty needle, [`filter`] lists exactly the glyphs
/// whose set starts with the prefix, each once, with no highlights.
pub proof fn lemma_prefix_only_lists_set(glyphs: Seq<Glyph>, query: Seq<char>, hits: Seq<Hit>)
    requires
        spec_split_query(query).0 is Some,
        trim(spec_split_query(query).1).len() == 0,
        filter_outcome(glyphs, query, hits),
        glyphs.len() <= usize::MAX,
    ensures
        forall|i: int|
            0 <= i < glyphs.len() ==> ((exists|k: int|
                0 <= k < hits.len() && (#[trigger] hits[k]).glyph_idx == i) <==> passes_prefix(
                glyphs[i].name@,
                spec_split_query(query).0,
            )),
        forall|k: int, l: int|
            0 <= k < hits.len() && 0 <= l < hits.len() && k != l ==> hits[k].glyph_idx
                != hits[l].glyph_idx,
        forall|k: int| 0 <= k < hits.len() ==> (#[trigger] hits[k]).name_indices@.len() == 0,
{
    let prefix = spec_split_query(query).0;
    let needle = trim(spec_split_query(query).1);
    assert forall|i: int| 0 <= i < glyphs.len() implies #[trigger] glyph_score(needle, glyphs[i])
        == Some(0u32) by {
        let ss = string_scores(needle, spec_search_strings(glyphs[i].name@, glyphs[i].codepoint));
        lemma_best_of_zeros(ss);
    }
    lemma_filter_lists_exactly(glyphs, query, hits);
    let bests = query_bests(glyphs, prefix, needle);
    let m = choose|m: Seq<Seq<u32>>| #[trigger]
        marks_fit(glyphs, prefix, needle, m) && ranked_hits(glyphs, bests, m, hits);
    let t = choose|t: Seq<Scored>| #[trigger] sorts(glyphs, keys_of(bests), t) && lists(t, m, hits);
    lemma_keys_of(bests);
    assert forall|k: int| 0 <= k < hits.len() implies (#[trigger] hits[k]).name_indices@.len() == 0 by {
        vstd::seq_lib::to_multiset_contains(t, t[k]);
        vstd::seq_lib::to_multiset_contains(keys_of(bests), t[k]);
        assert(keys_of(bests).contains(t[k]));
        assert(highlight_ok(glyphs, prefix, needle, t[k].glyph_idx as int, m[t[k].glyph_idx as int]));
    }
}

/// Trimming cuts white space only: `trim(s)` is the piece `s[a..a + n]`, with
/// white space alone before and after it.
proof fn lemma_trim_piece(s: Seq<char>)
    ensures
        trim_start(s).len() <= s.len(),
        s.len() - trim_start(s).len() + trim(s).len() <= s.len(),
        trim(s) == s.subrange(
            s.len() - trim_start(s).len(),
            s.len() - trim_start(s).len() + trim(s).len(),
        ),
        all_ws(s.take(s.len() - trim_start(s).len())),
        all_ws(s.skip(s.len() - trim_start(s).len() + trim(s).len())),
{
    lemma_trim_start_is_suffix(s);
    let a = s.len() - trim_start(s).len();
    let ts = trim_start(s);
    lemma_trim_end_is_prefix(ts);
    let n = trim(s).len();
    assert(trim(s) =~= s.subrange(a, a + n));
    assert forall|j: int| 0 <= j < s.skip(a + n).len() implies is_ws(#[trigger] s.skip(a + n)[j]) by {
        assert(s.skip(a + n)[j] == ts.skip(n as int)[j]);
    }
}

/// `'>'` is not white space.
proof fn lemma_gt_not_ws()
    ensures
        !is_ws('>'),
{
    assert(('>' as u32) == 0x3e);
}

/// How a query splits, in terms of the query's own characters. When the
/// query has no `>`, there is no set prefix, and the needle is the query with
/// white space cut from its ends only: a piece `q[s..e]` with white space
/// alone before and after it. When its first `>` is at `i`, the needle is
/// such a piece of what follows the `>`, and the prefix is `None` when only
/// white space comes before the `>`, else the lowered (ASCII) piece of what
/// comes before it, again with white space alone around it.
#[verifier::spinoff_prover]
#[verifier::rlimit(60)]
pub proof fn lemma_split_query_pieces(q: Seq<char>)
    ensures
        (forall|j: int| 0 <= j < q.len() ==> q[j] != '>') ==> {
            &&& spec_split_query(q).0 is None
            &&& exists|s: int, e: int| #![trigger q.subrange(s, e)]
                0 <= s <= e <= q.len() && spec_split_query(q).1 == q.subrange(s, e) && all_ws(
                    q.take(s),
                ) && all_ws(q.skip(e))
        },
        forall|i: int|
            0 <= i < q.len() && q[i] == '>' && (forall|j: int| 0 <= j < i ==> q[j] != '>') ==> {
                &&& exists|s: int, e: int| #![trigger q.subrange(s, e)]
                    i + 1 <= s <= e <= q.len() && spec_split_query(q).1 == q.subrange(s, e)
                        && all_ws(q.subrange(i + 1, s)) && all_ws(q.skip(e))
                &&& spec_split_query(q).0 is None <==> all_ws(q.take(i))
                &&& spec_split_query(q).0 matches Some(p) ==> exists|s: int, e: int| #![trigger q.subrange(s, e)]
                    0 <= s <= e <= i && p == ascii_lower(q.subrange(s, e)) && all_ws(q.take(s))
                        && all_ws(q.subrange(e, i))
            },
{
    lemma_gt_not_ws();
    lemma_trim_piece(q);
    let t = trim(q);
    let k = q.len() - trim_start(q).len();
    let m = k + t.len();
    lemma_index_of(t, '>');
    if forall|j: int| 0 <= j < q.len() ==> q[j] != '>' {
        assert forall|j: int| 0 <= j < t.len() implies t[j] != '>' by {
            assert(t[j] == q[k + j]);
        }
        assert(index_of(t, '>') is None);
        lemma_trim_is_trimmed(q);
        lemma_trim_piece(t);
        if t.len() > 0 {
            assert(trim_start(t) == t);
            assert(trim_end(t) == t);
        } else {
            assert(trim(t) =~= t);
        }
        assert(spec_split_query(q).1 == q.subrange(k, m));
    }
    assert forall|i: int|
        0 <= i < q.len() && q[i] == '>' && (forall|j: int| 0 <= j < i ==> q[j] != '>') implies {
        &&& exists|s: int, e: int| #![trigger q.subrange(s, e)]
            i + 1 <= s <= e <= q.len() && spec_split_query(q).1 == q.subrange(s, e) && all_ws(
                q.subrange(i + 1, s),
            ) && all_ws(q.skip(e))
        &&& spec_split_query(q).0 is None <==> all_ws(q.take(i))
        &&& spec_split_query(q).0 matches Some(p) ==> exists|s: int, e: int| #![trigger q.subrange(s, e)]
            0 <= s <= e <= i && p == ascii_lower(q.subrange(s, e)) && all_ws(q.take(s)) && all_ws(
                q.subrange(e, i),
            )
    } by {
        // The `>` lies inside the trimmed query.
        if i < k {
            assert(q.take(k)[i] == q[i]);
        }
        if i >= m {
            assert(q.skip(m)[i - m] == q[i]);
        }
        let ti = i - k;
        assert(t[ti] == q[i]);
        assert forall|j: int| 0 <= j < ti implies t[j] != '>' by {
            assert(t[j] == q[k + j]);
        }
        match index_of(t, '>') {
            Some(x) => {
                if x < ti {
                    assert(t[x as int] == q[k + x]);
                }
                assert(x == ti);
            },
            None => {
                assert(false);
            },
        }
        // The needle.
        let r = t.skip(ti + 1);
        assert(r =~= q.subrange(i + 1, m));
        lemma_trim_piece(r);
        let a2 = r.len() - trim_start(r).len();
        let n2 = trim(r).len();
        let s = i + 1 + a2;
        let e = s + n2;
        assert(spec_split_query(q).1 =~= q.subrange(s, e));
        assert forall|j: int| 0 <= j < q.subrange(i + 1, s).len() implies is_ws(
            #[trigger] q.subrange(i + 1, s)[j],
        ) by {
            assert(q.subrange(i + 1, s)[j] == r.take(a2)[j]);
        }
        assert forall|j: int| 0 <= j < q.skip(e).len() implies is_ws(#[trigger] q.skip(e)[j]) by {
            if e + j < m {
                assert(q.skip(e)[j] == r.skip(a2 + n2)[j]);
            } else {
                assert(q.skip(e)[j] == q.skip(m)[e + j - m]);
            }
        }
        // The prefix.
        let l = t.take(ti);
        assert(l =~= q.subrange(k, i));
        lemma_trim_piece(l);
        lemma_trim_empty_iff_all_ws(l);
        let a3 = l.len() - trim_start(l).len();
        let n3 = trim(l).len();
        let s0 = k + a3;
        let e0 = s0 + n3;
        if all_ws(q.take(i)) {
            assert forall|j: int| 0 <= j < l.len() implies is_ws(#[trigger] l[j]) by {
                assert(l[j] == q.take(i)[k + j]);
            }
        }
        if all_ws(l) {
            assert forall|j: int| 0 <= j < q.take(i).len() implies is_ws(#[trigger] q.take(i)[j]) by {
                if j < k {
                    assert(q.take(i)[j] == q.take(k)[j]);
                } else {
                    assert(q.take(i)[j] == l[j - k]);
                }
            }
        }
        assert(trim(l) =~= q.subrange(s0, e0));
        assert forall|j: int| 0 <= j < q.take(s0).len() implies is_ws(#[trigger] q.take(s0)[j]) by {
            if j < k {
                assert(q.take(s0)[j] == q.take(k)[j]);
            } else {
                assert(q.take(s0)[j] == l.take(a3)[j - k]);
            }
        }
        assert forall|j: int| 0 <= j < q.subrange(e0, i).len() implies is_ws(
            #[trigger] q.subrange(e0, i)[j],
        ) by {
            assert(q.subrange(e0, i)[j] == l.skip(a3 + n3)[j]);
        }
    }
}

/// Whether `s` has no white space at either end.
pub open spec fn is_trimmed(s: Seq<char>) -> bool {
    s.len() > 0 ==> !is_ws(s[0]) && !is_ws(s.last())
}

/// A trimmed sequence has no white space at either end.
pub proof fn lemma_trim_is_trimmed(s: Seq<char>)
    ensures
        is_trimmed(trim(s)),
{
    lemma_trim_start_is_suffix(s);
    let t = trim_start(s);
    lemma_trim_end_is_prefix(t);
    if trim(s).len() > 0 {
        assert(trim(s)[0] == t.take(trim(s).len() as int)[0]);
    }
}

/// Both halves of a split query are trimmed, and a set prefix is never empty
/// and has no ASCII upper-case letter.
pub proof fn lemma_split_query_shape(q: Seq<char>)
    ensures
        is_trimmed(spec_split_query(q).1),
        spec_split_query(q).0 matches Some(p) ==> {
            &&& p.len() > 0
            &&& is_trimmed(p)
            &&& forall|i: int| 0 <= i < p.len() ==> !('A' <= #[trigger] p[i] && p[i] <= 'Z')
        },
{
    let t = trim(q);
    match index_of(t, '>') {
        Some(i) => {
            lemma_trim_is_trimmed(t.skip(i + 1int));
            let left = trim(t.take(i as int));
            lemma_trim_is_trimmed(t.take(i as int));
            if left.len() > 0 {
                let p = ascii_lower(left);
                assert(p[0] == lower_ascii_char(left[0]));
                assert(p.last() == lower_ascii_char(left.last()));
            }
        },
        None => {
            lemma_trim_is_trimmed(t);
        },
    }
}

} // verus!
