//! The glyph model: the snapshot form, the runtime form, and what is derived
//! from a canonical `nf-` name (its icon set and its search alias).
use vstd::prelude::*;
use vstd::utf8::*;

use crate::text::{
    all_ws, is_ws, char_index_at_byte, char_utf8_width, chars_of, find_char, has_prefix, index_of,
    is_char_offset, is_whitespace, lemma_char_offset_unique, lemma_index_of,
    lemma_utf8_len_add, lemma_utf8_len_ge_len, lemma_utf8_len_push, lemma_utf8_len_take_strict,
    lower_hex, push_lower_hex, string_of, utf8_len,
};

verus! {

/// One Nerd Font glyph as stored in the snapshot. Only the name and the
/// codepoint are kept; the set token and the search aliases are derived from
/// the name at runtime.
pub struct StoredGlyph {
    /// Canonical nf name, e.g. `nf-cod-folder`.
    pub name: String,
    /// Unicode codepoint of the glyph.
    pub codepoint: u32,
}

/// The runtime view of a glyph. `set` and `aliases` are derived from `name`
/// on demand, see [`Glyph::set`] and [`Glyph::aliases`].
#[derive(Debug, Clone)]
pub struct Glyph {
    pub name: String,
    pub codepoint: u32,
}

impl StoredGlyph {
    /// The runtime glyph with the same name and codepoint.
    pub fn into_glyph(self) -> (g: Glyph)
        ensures
            g.name@ == self.name@,
            g.codepoint == self.codepoint,
    {
        Glyph { name: self.name, codepoint: self.codepoint }
    }
}

/// The characters `nf-`.
pub open spec fn nf_dash() -> Seq<char> {
    seq!['n', 'f', '-']
}

/// `name` without its leading `nf-`, if it has one.
pub open spec fn after_nf(name: Seq<char>) -> Seq<char> {
    if has_prefix(name, nf_dash()) {
        name.skip(3)
    } else {
        name
    }
}

/// The icon-set token of a name: what follows `nf-` (or the whole name when
/// there is no `nf-`) up to the first `-`, or all of it when there is no `-`.
pub open spec fn spec_set_of(name: Seq<char>) -> Seq<char> {
    let rest = after_nf(name);
    match index_of(rest, '-') {
        Some(k) => rest.take(k as int),
        None => rest,
    }
}

/// Icon-set token from a canonical nf name, e.g. `nf-cod-folder` -> `"cod"`.
/// A name without `nf-` is split all the same (`not-nf` -> `"not"`), and a
/// name without a `-` after the prefix is its own token (`nf` -> `"nf"`).
pub fn set_of(name: &str) -> (set: &str)
    ensures
        set@ == spec_set_of(name@),
{
    let v = chars_of(name);
    let start: usize = if v.len() >= 3 && v[0] == 'n' && v[1] == 'f' && v[2] == '-' {
        assert(v@.take(3) =~= nf_dash());
        3
    } else {
        assert(!has_prefix(v@, nf_dash())) by {
            if v@.len() >= 3 {
                assert(v@.take(3)[0] == v@[0]);
                assert(v@.take(3)[1] == v@[1]);
                assert(v@.take(3)[2] == v@[2]);
            }
        }
        0
    };
    assert(after_nf(v@) =~= v@.subrange(start as int, v@.len() as int));
    let end = match find_char(&v, start, v.len(), '-') {
        Some(i) => i,
        None => v.len(),
    };
    assert(spec_set_of(v@) =~= v@.subrange(start as int, end as int));
    name.substring_char(start, end)
}

/// `s` with every `_` replaced by a space.
pub open spec fn underscores_to_spaces(s: Seq<char>) -> Seq<char> {
    s.map_values(|c: char|
        if c == '_' {
            ' '
        } else {
            c
        })
}

/// The byte offset of the descriptor in a name: the bytes of `nf-`, of the
/// set token, and of one `-`.
pub open spec fn descriptor_offset(name: Seq<char>) -> int {
    (3 + utf8_len(spec_set_of(name)) + 1) as int
}

/// The descriptor of a name: what follows byte offset [`descriptor_offset`],
/// when that offset is a character boundary of the name.
pub open spec fn descriptor(name: Seq<char>) -> Option<Seq<char>> {
    let p = descriptor_offset(name);
    if exists|k: int| is_char_offset(name, p, k) {
        Some(name.skip(choose|k: int| is_char_offset(name, p, k)))
    } else {
        None
    }
}

/// The default search aliases of a name: the descriptor with underscores
/// turned into spaces, unless there is no descriptor or it would be all white
/// space.
pub open spec fn spec_aliases_of(name: Seq<char>) -> Seq<Seq<char>> {
    match descriptor(name) {
        Some(desc) => if desc.len() > 0 && !all_ws(underscores_to_spaces(desc)) {
            seq![underscores_to_spaces(desc)]
        } else {
            Seq::empty()
        },
        None => Seq::empty(),
    }
}

/// The views of a sequence of strings.
pub open spec fn string_views(v: Seq<String>) -> Seq<Seq<char>> {
    v.map_values(|s: String| s@)
}

/// Default search alias from a canonical nf name, e.g.
/// `nf-cod-left_hard_divider` -> `["left hard divider"]`. Empty if there is no
/// descriptor after `nf-{set}-`, or if it is made only of underscores.
pub fn aliases_of(name: &str) -> (v: Vec<String>)
    ensures
        string_views(v@) == spec_aliases_of(name@),
        v@.len() <= 1,
{
    let set = set_of(name);
    let chars = chars_of(name);
    let set_chars = chars_of(set);
    let total = name.as_bytes().len();
    proof {
        lemma_utf8_len_ge_len(name@);
    }
    // The byte length of the set token: it is a piece of the name, so it fits.
    let mut set_bytes: usize = 0;
    let mut i: usize = 0;
    let ghost rest = after_nf(name@);
    proof {
        lemma_index_of(rest, '-');
        assert(set_chars@ == spec_set_of(name@));
        // The token is a run of the name's characters: its bytes are a part of the name's.
        let off = name@.len() - rest.len();
        assert(rest =~= name@.skip(off));
        assert(name@ =~= name@.take(off) + (set_chars@ + name@.skip(off + set_chars@.len())));
        lemma_utf8_len_add(name@.take(off), set_chars@ + name@.skip(off + set_chars@.len()));
        lemma_utf8_len_add(set_chars@, name@.skip(off + set_chars@.len()));
        assert(encode_utf8(Seq::<char>::empty()) =~= Seq::<u8>::empty());
        assert(set_chars@.take(0) =~= Seq::<char>::empty());
    }
    while i < set_chars.len()
        invariant
            0 <= i <= set_chars@.len(),
            set_bytes == utf8_len(set_chars@.take(i as int)),
            utf8_len(set_chars@) <= total,
        decreases set_chars@.len() - i,
    {
        let w = char_utf8_width(set_chars[i]);
        proof {
            assert(set_chars@.take(i as int).push(set_chars@[i as int]) =~= set_chars@.take(i + 1));
            lemma_utf8_len_push(set_chars@.take(i as int), set_chars@[i as int]);
            if i + 1 < set_chars@.len() {
                lemma_utf8_len_take_strict(set_chars@, i + 1, set_chars@.len() as int);
            }
            assert(set_chars@.take(set_chars@.len() as int) =~= set_chars@);
        }
        set_bytes = set_bytes + w;
        i = i + 1;
    }
    assert(set_chars@.take(set_chars@.len() as int) =~= set_chars@);
    let mut out: Vec<String> = Vec::new();
    if set_bytes > total || total - set_bytes < 4 {
        // The offset lies past the end of the name: there is no descriptor.
        proof {
            assert forall|k: int| !is_char_offset(name@, descriptor_offset(name@), k) by {
                if 0 <= k <= name@.len() {
                    if k < name@.len() {
                        lemma_utf8_len_take_strict(name@, k, name@.len() as int);
                    }
                    assert(name@.take(name@.len() as int) =~= name@);
                }
            }
        }
        assert(string_views(out@) =~= spec_aliases_of(name@));
        return out;
    }
    let p = 3 + set_bytes + 1;
    match char_index_at_byte(&chars, p) {
        None => {
            assert(string_views(out@) =~= spec_aliases_of(name@));
            out
        },
        Some(k) => {
            proof {
                let kk = choose|k: int| is_char_offset(name@, descriptor_offset(name@), k);
                lemma_char_offset_unique(name@, p as int, k as int, kk);
            }
            let ghost desc = name@.skip(k as int);
            assert(descriptor(name@) == Some(desc));
            let mut spaced: Vec<char> = Vec::new();
            let mut any_text = false;
            let mut j = k;
            while j < chars.len()
                invariant
                    k <= j <= chars@.len(),
                    chars@ == name@,
                    desc == name@.skip(k as int),
                    spaced@ =~= underscores_to_spaces(chars@.subrange(k as int, j as int)),
                    any_text == !all_ws(spaced@),
                decreases chars@.len() - j,
            {
                let c = chars[j];
                let d = if c == '_' {
                    ' '
                } else {
                    c
                };
                let ws = is_whitespace(d);
                let ghost before = spaced@;
                spaced.push(d);
                proof {
                    assert(spaced@ == before.push(d));
                    if !all_ws(before) {
                        let w = choose|x: int| 0 <= x < before.len() && !is_ws(before[x]);
                        assert(spaced@[w] == before[w]);
                    }
                    if !ws {
                        assert(spaced@[spaced@.len() - 1] == d);
                    }
                    if all_ws(before) && ws {
                        assert forall|x: int| 0 <= x < spaced@.len() implies is_ws(
                            #[trigger] spaced@[x],
                        ) by {
                            if x < before.len() {
                                assert(spaced@[x] == before[x]);
                            }
                        }
                    }
                    assert(chars@.subrange(k as int, j + 1) =~= chars@.subrange(k as int, j as int).push(c));
                }
                if !ws {
                    any_text = true;
                }
                j = j + 1;
            }
            assert(chars@.subrange(k as int, chars@.len() as int) =~= desc);
            if k < chars.len() && any_text {
                let s = string_of(&spaced);
                out.push(s);
                assert(string_views(out@) =~= seq![spaced@]);
            } else {
                assert(string_views(out@) =~= Seq::<Seq<char>>::empty());
            }
            out
        },
    }
}

/// An alias has no underscore and is not blank.
pub proof fn lemma_alias_shape(name: Seq<char>)
    ensures
        forall|k: int|
            0 <= k < spec_aliases_of(name).len() ==> {
                let a = #[trigger] spec_aliases_of(name)[k];
                &&& !all_ws(a)
                &&& forall|i: int| 0 <= i < a.len() ==> a[i] != '_'
            },
{
}

/// Whether `cp` is a Unicode scalar value (not a surrogate, at most 0x10FFFF).
pub open spec fn is_char_value(cp: u32) -> bool {
    is_scalar(cp)
}

/// The character with value `cp`, if there is one.
pub open spec fn spec_char_of(cp: u32) -> Option<char> {
    if is_char_value(cp) {
        Some(cp as char)
    } else {
        None
    }
}

/// `char::from_u32`: the character with value `cp`, or `None` when `cp` is a
/// surrogate or above 0x10FFFF.
#[verifier::external_body]
fn char_from_u32(cp: u32) -> (c: Option<char>)
    ensures
        c == spec_char_of(cp),
{
    char::from_u32(cp)
}

/// What `str::to_lowercase` gives for `s`: the Unicode lower-case mapping of
/// each character. It depends on `s` alone.
pub uninterp spec fn unicode_lowercase(s: Seq<char>) -> Seq<char>;

/// `str::to_lowercase`.
#[verifier::external_body]
pub(crate) fn to_lowercase(s: &str) -> (r: String)
    ensures
        r@ == unicode_lowercase(s@),
{
    s.to_lowercase()
}

/// The strings the matcher searches for a glyph: the lowercased name, the
/// codepoint in lower hex, then each alias lowercased.
pub open spec fn spec_search_strings(name: Seq<char>, codepoint: u32) -> Seq<Seq<char>> {
    seq![unicode_lowercase(name), lower_hex(codepoint as nat)] + spec_aliases_of(name).map_values(
        |a: Seq<char>| unicode_lowercase(a),
    )
}

impl Glyph {
    /// The glyph's character, or `None` when the codepoint is not a valid
    /// `char` (a surrogate, or above 0x10FFFF).
    pub fn char(&self) -> (c: Option<char>)
        ensures
            c == spec_char_of(self.codepoint),
    {
        char_from_u32(self.codepoint)
    }

    /// Icon-set token, derived from `name`.
    pub fn set(&self) -> (s: &str)
        ensures
            s@ == spec_set_of(self.name@),
    {
        set_of(self.name.as_str())
    }

    /// Search aliases, derived from `name`: none or one, the descriptor with
    /// underscores turned into spaces.
    pub fn aliases(&self) -> (v: Vec<String>)
        ensures
            string_views(v@) == spec_aliases_of(self.name@),
            v@.len() <= 1,
    {
        aliases_of(self.name.as_str())
    }

    /// Lowercased strings the matcher searches across: the canonical name,
    /// the codepoint in lower hex, and any aliases.
    pub fn search_strings(&self) -> (v: Vec<String>)
        ensures
            string_views(v@) == spec_search_strings(self.name@, self.codepoint),
    {
        let mut v: Vec<String> = Vec::new();
        v.push(to_lowercase(self.name.as_str()));
        let mut hex: Vec<char> = Vec::new();
        push_lower_hex(&mut hex, self.codepoint);
        assert(hex@ =~= lower_hex(self.codepoint as nat));
        v.push(string_of(&hex));
        assert(string_views(v@) =~= seq![unicode_lowercase(self.name@), lower_hex(self.codepoint as nat)]);
        let aliases = self.aliases();
        let ghost a = spec_aliases_of(self.name@);
        let mut i: usize = 0;
        while i < aliases.len()
            invariant
                0 <= i <= aliases@.len(),
                string_views(aliases@) == a,
                string_views(v@) =~= seq![unicode_lowercase(self.name@), lower_hex(self.codepoint as nat)]
                    + a.take(i as int).map_values(|s: Seq<char>| unicode_lowercase(s)),
            decreases aliases@.len() - i,
        {
            assert(a[i as int] == aliases@[i as int]@);
            let low = to_lowercase(aliases[i].as_str());
            let ghost before = v@;
            v.push(low);
            assert(string_views(v@) =~= string_views(before).push(low@));
            assert(a.take(i + 1) =~= a.take(i as int).push(a[i as int]));
            assert(a.take(i + 1).map_values(|s: Seq<char>| unicode_lowercase(s)) =~= a.take(
                i as int,
            ).map_values(|s: Seq<char>| unicode_lowercase(s)).push(unicode_lowercase(a[i as int])));
            i = i + 1;
        }
        assert(a.take(aliases@.len() as int) =~= a);
        v
    }
}

/// The runtime glyphs of a decoded snapshot, in snapshot order.
pub fn glyphs_from_snapshot(stored: Vec<StoredGlyph>) -> (g: Vec<Glyph>)
    ensures
        g@.len() == stored@.len(),
        forall|i: int|
            0 <= i < g@.len() ==> (#[trigger] g@[i]).name@ == stored@[i].name@ && g@[i].codepoint
                == stored@[i].codepoint,
{
    let mut g: Vec<Glyph> = Vec::new();
    let mut rest = stored;
    let ghost all = rest@;
    let mut taken: Vec<Glyph> = Vec::new();
    // Take the entries from the back, then restore their order.
    while rest.len() > 0
        invariant
            rest@ == all.take(rest@.len() as int),
            rest@.len() + taken@.len() == all.len(),
            forall|j: int|
                0 <= j < taken@.len() ==> (#[trigger] taken@[j]).name@ == all[all.len() - 1 - j].name@
                    && taken@[j].codepoint == all[all.len() - 1 - j].codepoint,
        decreases rest@.len(),
    {
        let s = rest.pop().unwrap();
        proof {
            assert(rest@ =~= all.take(rest@.len() as int));
        }
        taken.push(s.into_glyph());
    }
    while taken.len() > 0
        invariant
            g@.len() + taken@.len() == all.len(),
            forall|j: int|
                0 <= j < taken@.len() ==> (#[trigger] taken@[j]).name@ == all[all.len() - 1 - j].name@
                    && taken@[j].codepoint == all[all.len() - 1 - j].codepoint,
            forall|j: int|
                0 <= j < g@.len() ==> (#[trigger] g@[j]).name@ == all[j].name@ && g@[j].codepoint
                    == all[j].codepoint,
        decreases taken@.len(),
    {
        let x = taken.pop().unwrap();
        g.push(x);
    }
    g
}

} // verus!
