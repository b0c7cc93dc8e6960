//! Normalising the upstream glyph table (an object keyed by icon name) into
//! snapshot entries: the `nf-` name and the parsed codepoint of each icon.
use serde_json::Value;
use vstd::prelude::*;

use crate::app::{hex_text, spec_render, OutputMode};
use crate::glyph::StoredGlyph;
use crate::text::{
    all_hex_digits, chars_of, hex_char, hex_number, hex_value, lower_hex, pad_left, parse_hex_range,
    parse_hex_u32, push_char, push_seq, repeat_char, trim, trim_end, trim_range, trim_start,
    unsigned_digits,
};

verus! {

broadcast use vstd::seq_lib::group_seq_properties;

/// What the normaliser reads of an upstream JSON value: its `u64`, its
/// string, or neither.
pub enum JsonField {
    /// A number that is a `u64`.
    U64(u64),
    /// A string.
    Str(String),
    /// Anything else.
    Other,
}

/// One upstream icon entry: its members when it is an object (none when it
/// is not), in order, with distinct keys.
pub struct UpstreamItem {
    pub fields: Vec<(String, JsonField)>,
}

/// The upstream table: an object of icon entries keyed by icon name, or
/// something that is not an object.
pub enum Upstream {
    Object(Vec<(String, UpstreamItem)>),
    NotObject,
}

/// Why a table could not be normalised.
#[derive(Debug, PartialEq, Eq, Structural)]
pub enum NormalizeError {
    /// The table is not an object.
    NotAnObject,
    /// An entry has no string or number codepoint.
    MissingCodepoint,
    /// An entry's codepoint text is not a hexadecimal `u32`.
    BadHex,
}

/// The characters of a member name, for the spec.
pub open spec fn codepoint_key() -> Seq<char> {
    seq!['c', 'o', 'd', 'e', 'p', 'o', 'i', 'n', 't']
}

/// The characters `code`.
pub open spec fn code_key() -> Seq<char> {
    seq!['c', 'o', 'd', 'e']
}

/// The characters `hex`.
pub open spec fn hex_key() -> Seq<char> {
    seq!['h', 'e', 'x']
}

/// The key of the metadata entry, which is not an icon.
pub open spec fn metadata_key() -> Seq<char> {
    seq!['M', 'E', 'T', 'A', 'D', 'A', 'T', 'A']
}

/// The member of an entry under `key`, as `Value::get` finds it.
pub open spec fn lookup(fields: Seq<(String, JsonField)>, key: Seq<char>) -> Option<JsonField>
    decreases fields.len(),
{
    if fields.len() == 0 {
        None
    } else if fields[0].0@ == key {
        Some(fields[0].1)
    } else {
        lookup(fields.drop_first(), key)
    }
}

/// `s` with every leading copy of `p` removed, as `str::trim_start_matches`.
pub open spec fn strip_all(s: Seq<char>, p: Seq<char>) -> Seq<char>
    decreases s.len(),
{
    if p.len() > 0 && p.len() <= s.len() && s.take(p.len() as int) == p {
        strip_all(s.skip(p.len() as int), p)
    } else {
        s
    }
}

/// The hexadecimal text of a codepoint string: trimmed, then without leading
/// `U+`, `u+`, `0x` and `0X` markers, in that order.
pub open spec fn codepoint_digits(s: Seq<char>) -> Seq<char> {
    strip_all(
        strip_all(strip_all(strip_all(trim(s), seq!['U', '+']), seq!['u', '+']), seq!['0', 'x']),
        seq!['0', 'X'],
    )
}

/// The codepoint of an entry: a `u64` under `codepoint` (cut to 32 bits);
/// else the string under the first of `codepoint`, `code`, `hex` that is
/// present, read as hexadecimal.
pub open spec fn spec_parse_codepoint(fields: Seq<(String, JsonField)>) -> Result<u32, NormalizeError> {
    match lookup(fields, codepoint_key()) {
        Some(JsonField::U64(i)) => Ok(i as u32),
        _ => {
            let found = match lookup(fields, codepoint_key()) {
                Some(v) => Some(v),
                None => match lookup(fields, code_key()) {
                    Some(v) => Some(v),
                    None => lookup(fields, hex_key()),
                },
            };
            match found {
                Some(JsonField::Str(s)) => match parse_hex_u32(codepoint_digits(s@)) {
                    Some(v) => Ok(v),
                    None => Err(NormalizeError::BadHex),
                },
                _ => Err(NormalizeError::MissingCodepoint),
            }
        },
    }
}

/// Whether `a` and `b` hold the same characters.
fn same_chars(a: &str, b: &str) -> (r: bool)
    ensures
        r == (a@ == b@),
{
    let x = chars_of(a);
    let y = chars_of(b);
    if x.len() != y.len() {
        return false;
    }
    let mut i: usize = 0;
    while i < x.len()
        invariant
            x@ == a@,
            y@ == b@,
            x@.len() == y@.len(),
            0 <= i <= x@.len(),
            forall|j: int| 0 <= j < i ==> x@[j] == y@[j],
        decreases x@.len() - i,
    {
        if x[i] != y[i] {
            return false;
        }
        i = i + 1;
    }
    assert(x@ =~= y@);
    true
}

/// The member of `fields` under `key`.
fn find_field<'a>(fields: &'a Vec<(String, JsonField)>, key: &str) -> (r: Option<&'a JsonField>)
    ensures
        match r {
            Some(v) => lookup(fields@, key@) == Some(*v),
            None => lookup(fields@, key@) is None,
        },
{
    let mut i: usize = 0;
    while i < fields.len()
        invariant
            0 <= i <= fields@.len(),
            lookup(fields@, key@) == lookup(fields@.skip(i as int), key@),
        decreases fields@.len() - i,
    {
        assert(fields@.skip(i as int).drop_first() =~= fields@.skip(i + 1));
        assert(fields@.skip(i as int)[0] == fields@[i as int]);
        if same_chars(fields[i].0.as_str(), key) {
            return Some(&fields[i].1);
        }
        i = i + 1;
    }
    None
}

/// The start of `v[lo..hi]` after every leading copy of `p`.
fn strip_all_range(v: &Vec<char>, lo: usize, hi: usize, p: &Vec<char>) -> (r: usize)
    requires
        lo <= hi <= v@.len(),
    ensures
        lo <= r <= hi,
        v@.subrange(r as int, hi as int) == strip_all(v@.subrange(lo as int, hi as int), p@),
{
    let mut i = lo;
    if p.len() == 0 {
        return lo;
    }
    loop
        invariant
            lo <= i <= hi <= v@.len(),
            p@.len() > 0,
            strip_all(v@.subrange(lo as int, hi as int), p@) == strip_all(
                v@.subrange(i as int, hi as int),
                p@,
            ),
        decreases hi - i,
    {
        let ghost s = v@.subrange(i as int, hi as int);
        if p.len() > hi - i {
            return i;
        }
        let mut k: usize = 0;
        let mut same = true;
        while k < p.len()
            invariant
                p@.len() <= hi - i,
                lo <= i <= hi <= v@.len(),
                s == v@.subrange(i as int, hi as int),
                0 <= k <= p@.len(),
                same == (forall|j: int| 0 <= j < k ==> s[j] == p@[j]),
            decreases p@.len() - k,
        {
            if v[i + k] != p[k] {
                same = false;
            }
            assert(s[k as int] == v@[i + k]);
            k = k + 1;
        }
        if !same {
            assert(s.take(p@.len() as int) != p@) by {
                let j = choose|j: int| 0 <= j < p@.len() && s[j] != p@[j];
                assert(s.take(p@.len() as int)[j] == s[j]);
            }
            return i;
        }
        assert(s.take(p@.len() as int) =~= p@);
        assert(s.skip(p@.len() as int) =~= v@.subrange(i + p@.len(), hi as int));
        i = i + p.len();
    }
}

/// The codepoint of an entry, as [`spec_parse_codepoint`] says.
pub fn parse_codepoint(item: &UpstreamItem) -> (r: Result<u32, NormalizeError>)
    ensures
        r == spec_parse_codepoint(item.fields@),
{
    proof {
        reveal_strlit("codepoint");
        reveal_strlit("code");
        reveal_strlit("hex");
        assert("codepoint"@ =~= codepoint_key());
        assert("code"@ =~= code_key());
        assert("hex"@ =~= hex_key());
    }
    let first = find_field(&item.fields, "codepoint");
    if let Some(JsonField::U64(i)) = first {
        return Ok(*i as u32);
    }
    let found = match first {
        Some(v) => Some(v),
        None => match find_field(&item.fields, "code") {
            Some(v) => Some(v),
            None => find_field(&item.fields, "hex"),
        },
    };
    match found {
        Some(JsonField::Str(s)) => {
            let v = chars_of(s.as_str());
            let (a, b) = trim_range(&v, 0, v.len());
            assert(v@.subrange(0, v@.len() as int) =~= v@);
            let mut u_plus: Vec<char> = Vec::new();
            u_plus.push('U');
            u_plus.push('+');
            let mut l_plus: Vec<char> = Vec::new();
            l_plus.push('u');
            l_plus.push('+');
            let mut zero_x: Vec<char> = Vec::new();
            zero_x.push('0');
            zero_x.push('x');
            let mut zero_cx: Vec<char> = Vec::new();
            zero_cx.push('0');
            zero_cx.push('X');
            let a1 = strip_all_range(&v, a, b, &u_plus);
            let a2 = strip_all_range(&v, a1, b, &l_plus);
            let a3 = strip_all_range(&v, a2, b, &zero_x);
            let a4 = strip_all_range(&v, a3, b, &zero_cx);
            assert(u_plus@ =~= seq!['U', '+']);
            assert(l_plus@ =~= seq!['u', '+']);
            assert(zero_x@ =~= seq!['0', 'x']);
            assert(zero_cx@ =~= seq!['0', 'X']);
            assert(v@.subrange(a4 as int, b as int) == codepoint_digits(s@));
            match parse_hex_range(&v, a4, b) {
                Some(x) => Ok(x),
                None => Err(NormalizeError::BadHex),
            }
        },
        _ => Err(NormalizeError::MissingCodepoint),
    }
}

/// The snapshot entries of an upstream table: for each key in order except
/// `METADATA`, the name `nf-{key}` and the entry's codepoint. The first entry
/// whose codepoint cannot be read decides the error.
pub open spec fn spec_normalize(entries: Seq<(String, UpstreamItem)>) -> Result<
    Seq<(Seq<char>, u32)>,
    NormalizeError,
>
    decreases entries.len(),
{
    if entries.len() == 0 {
        Ok(Seq::empty())
    } else {
        let (key, item) = entries[0];
        if key@ == metadata_key() {
            spec_normalize(entries.drop_first())
        } else {
            match spec_parse_codepoint(item.fields@) {
                Err(e) => Err(e),
                Ok(cp) => match spec_normalize(entries.drop_first()) {
                    Err(e) => Err(e),
                    Ok(rest) => Ok(seq![(seq!['n', 'f', '-'] + key@, cp)] + rest),
                },
            }
        }
    }
}

/// The name and codepoint of each snapshot entry.
pub open spec fn stored_views(v: Seq<StoredGlyph>) -> Seq<(Seq<char>, u32)> {
    v.map_values(|g: StoredGlyph| (g.name@, g.codepoint))
}

/// Pull just the name and the codepoint out of the upstream table. The icon
/// set and the alias are recoverable from the name at runtime.
pub fn normalize(value: &Upstream) -> (r: Result<Vec<StoredGlyph>, NormalizeError>)
    ensures
        match value {
            Upstream::NotObject => r == Err::<Vec<StoredGlyph>, NormalizeError>(
                NormalizeError::NotAnObject,
            ),
            Upstream::Object(entries) => match (r, spec_normalize(entries@)) {
                (Ok(v), Ok(w)) => stored_views(v@) == w,
                (Err(e), Err(f)) => e == f,
                _ => false,
            },
        },
{
    match value {
        Upstream::NotObject => Err(NormalizeError::NotAnObject),
        Upstream::Object(entries) => {
            proof {
                reveal_strlit("METADATA");
                assert("METADATA"@ =~= metadata_key());
            }
            let mut out: Vec<StoredGlyph> = Vec::new();
            let mut i: usize = 0;
            while i < entries.len()
                invariant
                    0 <= i <= entries@.len(),
                    *value == Upstream::Object(*entries),
                    spec_normalize(entries@) == match spec_normalize(entries@.skip(i as int)) {
                        Ok(rest) => Ok(stored_views(out@) + rest),
                        Err(e) => Err(e),
                    },
                decreases entries@.len() - i,
            {
                proof {
                    reveal_strlit("METADATA");
                    assert("METADATA"@ =~= metadata_key());
                }
                let ghost tail = entries@.skip(i as int);
                assert(tail.drop_first() =~= entries@.skip(i + 1));
                assert(tail[0] == entries@[i as int]);
                let key = &entries[i].0;
                let item = &entries[i].1;
                if !same_chars(key.as_str(), "METADATA") {
                    match parse_codepoint(item) {
                        Err(e) => {
                            return Err(e);
                        },
                        Ok(cp) => {
                            let mut name = String::new();
                            push_char(&mut name, 'n');
                            push_char(&mut name, 'f');
                            push_char(&mut name, '-');
                            let kv = chars_of(key.as_str());
                            push_seq(&mut name, &kv);
                            assert(name@ =~= seq!['n', 'f', '-'] + key@);
                            let ghost before = out@;
                            out.push(StoredGlyph { name, codepoint: cp });
                            proof {
                                assert(stored_views(out@) =~= stored_views(before).push(
                                    (seq!['n', 'f', '-'] + key@, cp),
                                ));
                                match spec_normalize(entries@.skip(i + 1)) {
                                    Ok(rest) => {
                                        assert(stored_views(out@) + rest =~= stored_views(before)
                                            + (seq![(seq!['n', 'f', '-'] + key@, cp)] + rest));
                                    },
                                    Err(e) => {},
                                }
                            }
                        },
                    }
                }
                i = i + 1;
            }
            assert(entries@.skip(entries@.len() as int) =~= Seq::<(String, UpstreamItem)>::empty());
            assert(stored_views(out@) + Seq::<(Seq<char>, u32)>::empty() =~= stored_views(out@));
            Ok(out)
        },
    }
}

// ---------------------------------------------------------------------------
// Reading the upstream JSON
// ---------------------------------------------------------------------------

/// The upstream table that serde_json reads from the text `raw`: `None` when
/// `raw` is not JSON; otherwise the top-level value as a table (its entries,
/// each with its members, in the order that serde_json's map keeps them), or
/// `NotObject` when the value is not an object.
pub uninterp spec fn json_upstream(raw: Seq<char>) -> Option<Upstream>;

/// `serde_json::from_str::<Value>` on `raw`, with the value it reads turned
/// into the library's table: each member that `Number::as_u64` reads becomes
/// `U64`, each string `Str`, and any other value `Other`; an entry that is
/// not an object has no members. The result is [`json_upstream`] of the
/// text; serde_json reads without panicking, and its recursion limit bounds
/// the depth of the value.
#[verifier::external_body]
pub fn parse_upstream(raw: &str) -> (r: Option<Upstream>)
    ensures
        r == json_upstream(raw@),
{
    let Ok(value) = serde_json::from_str::<Value>(raw) else { return None };
    Some(match value {
        Value::Object(obj) => Upstream::Object(obj.into_iter().map(|(key, item)| (key, UpstreamItem {
            fields: match item {
                Value::Object(m) => m.into_iter().map(|(k, v)| (k, match v {
                    Value::Number(n) => n.as_u64().map_or(JsonField::Other, JsonField::U64),
                    Value::String(s) => JsonField::Str(s),
                    _ => JsonField::Other,
                })).collect(),
                _ => Vec::new(),
            },
        })).collect()),
        _ => Upstream::NotObject,
    })
}

/// Why no snapshot could be made from the upstream text.
#[derive(Debug, PartialEq, Eq, Structural)]
pub enum SnapshotError {
    /// The text is not JSON.
    NotJson,
    /// The table could not be normalised.
    Normalize(NormalizeError),
    /// The table has no icon entries.
    Empty,
}

/// What [`normalize`] makes of a table.
pub open spec fn spec_normalized(u: Upstream) -> Result<Seq<(Seq<char>, u32)>, NormalizeError> {
    match u {
        Upstream::NotObject => Err(NormalizeError::NotAnObject),
        Upstream::Object(entries) => spec_normalize(entries@),
    }
}

/// Whether `r` is the snapshot outcome of the table `u`: its normalisation
/// error, `Empty` when it has no icon entries, or its entries.
pub open spec fn snapshot_outcome(u: Upstream, r: Result<Vec<StoredGlyph>, SnapshotError>) -> bool {
    match spec_normalized(u) {
        Err(e) => r matches Err(f) && f == SnapshotError::Normalize(e),
        Ok(w) => if w.len() == 0 {
            r matches Err(SnapshotError::Empty)
        } else {
            r matches Ok(v) && stored_views(v@) == w
        },
    }
}

/// The snapshot entries of a table: its normalisation, refused when it has
/// no icon entries.
pub fn entries_of(u: &Upstream) -> (r: Result<Vec<StoredGlyph>, SnapshotError>)
    ensures
        snapshot_outcome(*u, r),
{
    match normalize(u) {
        Err(e) => Err(SnapshotError::Normalize(e)),
        Ok(v) => if v.len() == 0 {
            Err(SnapshotError::Empty)
        } else {
            Ok(v)
        },
    }
}

/// The snapshot entries of the upstream JSON text `raw`: `NotJson` when it is
/// not JSON, else those of the table it holds.
pub fn snapshot_entries(raw: &str) -> (r: Result<Vec<StoredGlyph>, SnapshotError>)
    ensures
        match json_upstream(raw@) {
            None => r matches Err(SnapshotError::NotJson),
            Some(u) => snapshot_outcome(u, r),
        },
{
    match parse_upstream(raw) {
        None => Err(SnapshotError::NotJson),
        Some(u) => entries_of(&u),
    }
}

// ---------------------------------------------------------------------------
// Laws
// ---------------------------------------------------------------------------

/// Whether `key` is an icon's key: anything but `METADATA`.
pub open spec fn icon_key(key: Seq<char>) -> bool {
    key != seq!['M', 'E', 'T', 'A', 'D', 'A', 'T', 'A']
}

/// Whether the snapshot entry `out` comes from the table entry `entry`: the
/// entry has an icon's key, `out` is named `nf-` followed by that key,
/// unchanged, and has the entry's codepoint.
pub open spec fn made_from(entry: (String, UpstreamItem), out: (Seq<char>, u32)) -> bool {
    &&& icon_key(entry.0@)
    &&& out.0 == seq!['n', 'f', '-'] + entry.0@
    &&& spec_parse_codepoint(entry.1.fields@) == Ok::<u32, NormalizeError>(out.1)
}

/// Each snapshot entry of a table is named `nf-` followed by the key of one of
/// its entries, unchanged, other than `METADATA`, and has that entry's
/// codepoint.
pub proof fn lemma_normalize_names_from_keys(entries: Seq<(String, UpstreamItem)>)
    ensures
        spec_normalize(entries) matches Ok(w) ==> forall|k: int|
            0 <= k < w.len() ==> exists|j: int|
                0 <= j < entries.len() && made_from(#[trigger] entries[j], #[trigger] w[k]),
    decreases entries.len(),
{
    if entries.len() > 0 {
        let rest = entries.drop_first();
        lemma_normalize_names_from_keys(rest);
        assert(metadata_key() =~= seq!['M', 'E', 'T', 'A', 'D', 'A', 'T', 'A']);
        if let Ok(w) = spec_normalize(entries) {
            let r = spec_normalize(rest)->Ok_0;
            assert forall|k: int| 0 <= k < w.len() implies exists|j: int|
                0 <= j < entries.len() && made_from(#[trigger] entries[j], #[trigger] w[k]) by {
                if entries[0].0@ == metadata_key() {
                    let j = choose|j: int| 0 <= j < rest.len() && made_from(#[trigger] rest[j], w[k]);
                    assert(entries[j + 1] == rest[j]);
                } else if k == 0 {
                    assert(made_from(entries[0], w[0]));
                } else {
                    assert(w[k] == r[k - 1]);
                    let j = choose|j: int| 0 <= j < rest.len() && made_from(#[trigger] rest[j], r[k - 1]);
                    assert(entries[j + 1] == rest[j]);
                }
            }
        }
    }
}

/// Each entry of a table other than `METADATA` gives a snapshot entry named
/// `nf-` followed by its key, unchanged.
pub proof fn lemma_normalize_keeps_every_key(entries: Seq<(String, UpstreamItem)>)
    ensures
        spec_normalize(entries) matches Ok(w) ==> forall|j: int|
            0 <= j < entries.len() && icon_key((#[trigger] entries[j]).0@) ==> exists|k: int|
                0 <= k < w.len() && (#[trigger] w[k]).0 == seq!['n', 'f', '-'] + entries[j].0@,
    decreases entries.len(),
{
    if entries.len() > 0 {
        let rest = entries.drop_first();
        lemma_normalize_keeps_every_key(rest);
        assert(metadata_key() =~= seq!['M', 'E', 'T', 'A', 'D', 'A', 'T', 'A']);
        if let Ok(w) = spec_normalize(entries) {
            let r = spec_normalize(rest)->Ok_0;
            assert forall|j: int| 0 <= j < entries.len() && icon_key((#[trigger] entries[j]).0@) implies exists|k: int|
                0 <= k < w.len() && (#[trigger] w[k]).0 == seq!['n', 'f', '-'] + entries[j].0@ by {
                if entries[0].0@ == metadata_key() {
                    assert(j > 0);
                    assert(entries[j] == rest[j - 1]);
                } else if j == 0 {
                    assert(w[0].0 == seq!['n', 'f', '-'] + entries[0].0@);
                } else {
                    assert(entries[j] == rest[j - 1]);
                    let k = choose|k: int|
                        0 <= k < r.len() && (#[trigger] r[k]).0 == seq!['n', 'f', '-'] + rest[j - 1].0@;
                    assert(w[k + 1] == r[k]);
                }
            }
        }
    }
}

/// One digit that [`hex_char`] writes reads back as its value.
pub proof fn lemma_hex_char_value(d: nat)
    requires
        d < 16,
    ensures
        hex_value(hex_char(d)) == d,
        '0' <= hex_char(d) <= '9' || 'a' <= hex_char(d) <= 'f',
{
    if d < 10 {
        assert((48 + d) as char as u32 == 48 + d);
    } else {
        assert((87 + d) as char as u32 == 87 + d);
    }
}

/// The digits that [`lower_hex`] writes read back as the number.
pub proof fn lemma_lower_hex_reads_back(n: nat)
    ensures
        lower_hex(n).len() >= 1,
        all_hex_digits(lower_hex(n)),
        hex_number(lower_hex(n)) == n,
        forall|i: int| 0 <= i < lower_hex(n).len() ==> ('0' <= #[trigger] lower_hex(n)[i] <= '9'
            || 'a' <= lower_hex(n)[i] <= 'f'),
    decreases n,
{
    lemma_hex_char_value(n % 16);
    if n < 16 {
        assert(lower_hex(n) == seq![hex_char(n)]);
        assert(lower_hex(n).drop_last() =~= Seq::<char>::empty());
        assert(hex_number(Seq::<char>::empty()) == 0);
        assert(lower_hex(n).last() == hex_char(n));
        assert(n % 16 == n);
        assert(hex_number(lower_hex(n)) == hex_number(lower_hex(n).drop_last()) * 16 + hex_value(
            lower_hex(n).last(),
        ));
    } else {
        lemma_lower_hex_reads_back(n / 16);
        let s = lower_hex(n / 16);
        assert(lower_hex(n) == s.push(hex_char(n % 16)));
        assert(lower_hex(n).drop_last() =~= s);
        assert(lower_hex(n).last() == hex_char(n % 16));
        assert(hex_number(lower_hex(n)) == hex_number(s) * 16 + hex_value(hex_char(n % 16)));
        assert(hex_number(lower_hex(n)) == (n / 16) * 16 + n % 16);
        assert(forall|i: int| 0 <= i < s.len() ==> lower_hex(n)[i] == s[i]);
    }
}

/// Leading zeros do not change the value of a digit string.
pub proof fn lemma_hex_number_zeros(k: nat, s: Seq<char>)
    ensures
        hex_number(repeat_char('0', k) + s) == hex_number(s),
    decreases s.len(), k,
{
    if s.len() == 0 {
        assert(repeat_char('0', k) + s =~= repeat_char('0', k));
        if k > 0 {
            assert(repeat_char('0', k).drop_last() =~= repeat_char('0', (k - 1) as nat));
            lemma_hex_number_zeros((k - 1) as nat, s);
            assert(repeat_char('0', (k - 1) as nat) + s =~= repeat_char('0', (k - 1) as nat));
        }
    } else {
        lemma_hex_number_zeros(k, s.drop_last());
        assert((repeat_char('0', k) + s).drop_last() =~= repeat_char('0', k) + s.drop_last());
        assert((repeat_char('0', k) + s).last() == s.last());
    }
}

/// A string written by the hex output mode (`0x`, then at least four digits)
/// reads back as the same codepoint.
pub proof fn lemma_hex_text_reads_back(cp: u32)
    ensures
        parse_hex_u32(codepoint_digits(hex_text(cp))) == Some(cp),
{
    let d = lower_hex(cp as nat);
    lemma_lower_hex_reads_back(cp as nat);
    let padded = pad_left(d, '0', 4);
    let z: nat = if d.len() < 4 {
        (4 - d.len()) as nat
    } else {
        0
    };
    assert(padded =~= repeat_char('0', z) + d);
    lemma_hex_number_zeros(z, d);
    assert(padded.len() >= 4);
    assert forall|i: int| 0 <= i < padded.len() implies ('0' <= #[trigger] padded[i] <= '9' || 'a'
        <= padded[i] <= 'f') by {
        if i >= z {
            assert(padded[i] == d[i - z]);
        }
    }
    let h = hex_text(cp);
    assert(h =~= seq!['0', 'x'] + padded);
    // Trimming keeps it: it starts with `0` and ends with a digit.
    assert(trim_start(h) == h);
    assert(h.last() == padded.last());
    assert(trim_end(h) == h);
    assert(trim(h) == h);
    // Only the `0x` marker goes.
    assert(h.take(2) =~= seq!['0', 'x']);
    assert(strip_all(h, seq!['U', '+']) == h) by {
        assert(h.take(2)[0] != 'U');
    }
    assert(strip_all(h, seq!['u', '+']) == h) by {
        assert(h.take(2)[0] != 'u');
    }
    assert(h.skip(2) =~= padded);
    assert(strip_all(padded, seq!['0', 'x']) == padded) by {
        assert(padded.take(2)[1] == padded[1]);
    }
    assert(strip_all(h, seq!['0', 'x']) == padded);
    assert(strip_all(padded, seq!['0', 'X']) == padded) by {
        assert(padded.take(2)[1] == padded[1]);
    }
    assert(codepoint_digits(h) == padded);
    assert(unsigned_digits(padded) == padded);
    assert(all_hex_digits(padded));
}

/// A `code` member holding what the hex output mode renders for a glyph
/// reads back as that glyph's codepoint.
pub proof fn lemma_rendered_hex_reads_back(
    fields: Seq<(String, JsonField)>,
    name: Seq<char>,
    cp: u32,
)
    requires
        lookup(fields, codepoint_key()) is None,
        lookup(fields, code_key()) matches Some(JsonField::Str(s)) && s@ == spec_render(
            OutputMode::Hex,
            name,
            cp,
        ),
    ensures
        spec_parse_codepoint(fields) == Ok::<u32, NormalizeError>(cp),
{
    lemma_hex_text_reads_back(cp);
}

} // verus!
