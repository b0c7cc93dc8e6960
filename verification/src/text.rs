//! Character classes, trimming, ASCII case folding, hexadecimal and decimal
//! rendering and parsing, and UTF-8 byte lengths: the text primitives that the
//! rest of the library is stated and proved over.
use vstd::prelude::*;
use vstd::utf8::*;

verus! {

broadcast use vstd::seq_lib::group_seq_properties;

// ---------------------------------------------------------------------------
// Character classes
// ---------------------------------------------------------------------------

/// The Unicode `White_Space` property, which `char::is_whitespace` and
/// `str::trim` go by.
pub open spec fn is_ws(c: char) -> bool {
    let u = c as u32;
    ||| 0x9 <= u <= 0xD
    ||| u == 0x20
    ||| u == 0x85
    ||| u == 0xA0
    ||| u == 0x1680
    ||| 0x2000 <= u <= 0x200A
    ||| u == 0x2028
    ||| u == 0x2029
    ||| u == 0x202F
    ||| u == 0x205F
    ||| u == 0x3000
}

/// Whether `c` has the Unicode `White_Space` property.
pub fn is_whitespace(c: char) -> (b: bool)
    ensures
        b == is_ws(c),
{
    let u = c as u32;
    (0x9 <= u && u <= 0xD) || u == 0x20 || u == 0x85 || u == 0xA0 || u == 0x1680 || (0x2000 <= u
        && u <= 0x200A) || u == 0x2028 || u == 0x2029 || u == 0x202F || u == 0x205F || u == 0x3000
}

/// The Unicode general category `Cc`, which `char::is_control` goes by.
pub open spec fn is_cc(c: char) -> bool {
    let u = c as u32;
    u <= 0x1F || (0x7F <= u && u <= 0x9F)
}

/// Whether `c` is a control character (general category `Cc`).
pub fn is_control(c: char) -> (b: bool)
    ensures
        b == is_cc(c),
{
    let u = c as u32;
    u <= 0x1F || (0x7F <= u && u <= 0x9F)
}

// ---------------------------------------------------------------------------
// ASCII case folding
// ---------------------------------------------------------------------------

/// `c` with an ASCII upper-case letter mapped to its lower-case letter.
pub open spec fn lower_ascii_char(c: char) -> char {
    if 'A' <= c && c <= 'Z' {
        ((c as u32) + 32) as char
    } else {
        c
    }
}

/// `s` with every ASCII upper-case letter lowered, as `str::to_ascii_lowercase`.
pub open spec fn ascii_lower(s: Seq<char>) -> Seq<char> {
    s.map_values(|c: char| lower_ascii_char(c))
}

/// Lowers one ASCII upper-case letter; every other character is kept.
pub fn to_ascii_lower_char(c: char) -> (r: char)
    ensures
        r == lower_ascii_char(c),
{
    if 'A' <= c && c <= 'Z' {
        let b: u8 = (c as u32) as u8;
        let r = (b + 32) as char;
        proof {
            let u: u32 = ((c as u32) + 32) as u32;
            assert(r as u32 == u);
            vstd::utf8::char_u32_cast(r, u);
        }
        r
    } else {
        c
    }
}

/// `v[lo..hi]` with every ASCII upper-case letter lowered.
pub fn ascii_lower_range(v: &Vec<char>, lo: usize, hi: usize) -> (r: Vec<char>)
    requires
        lo <= hi <= v@.len(),
    ensures
        r@ == ascii_lower(v@.subrange(lo as int, hi as int)),
{
    let mut r: Vec<char> = Vec::new();
    let mut i = lo;
    while i < hi
        invariant
            lo <= i <= hi <= v@.len(),
            r@ =~= ascii_lower(v@.subrange(lo as int, i as int)),
        decreases hi - i,
    {
        let c = to_ascii_lower_char(v[i]);
        r.push(c);
        i = i + 1;
    }
    r
}

// ---------------------------------------------------------------------------
// Trimming
// ---------------------------------------------------------------------------

/// `s` without its leading white space.
pub open spec fn trim_start(s: Seq<char>) -> Seq<char>
    decreases s.len(),
{
    if s.len() > 0 && is_ws(s[0]) {
        trim_start(s.drop_first())
    } else {
        s
    }
}

/// `s` without its trailing white space.
pub open spec fn trim_end(s: Seq<char>) -> Seq<char>
    decreases s.len(),
{
    if s.len() > 0 && is_ws(s.last()) {
        trim_end(s.drop_last())
    } else {
        s
    }
}

/// `s` without leading and trailing white space, as `str::trim`.
pub open spec fn trim(s: Seq<char>) -> Seq<char> {
    trim_end(trim_start(s))
}

/// Whether every character of `s` is white space.
pub open spec fn all_ws(s: Seq<char>) -> bool {
    forall|i: int| 0 <= i < s.len() ==> is_ws(#[trigger] s[i])
}

/// Trimming gives a contiguous piece of `s`: it is `s[a..b]` for some `a <= b`.
pub proof fn lemma_trim_start_is_suffix(s: Seq<char>)
    ensures
        trim_start(s).len() <= s.len(),
        trim_start(s) == s.skip(s.len() - trim_start(s).len()),
        all_ws(s.take(s.len() - trim_start(s).len())),
        trim_start(s).len() > 0 ==> !is_ws(trim_start(s)[0]),
    decreases s.len(),
{
    if s.len() > 0 && is_ws(s[0]) {
        lemma_trim_start_is_suffix(s.drop_first());
        let t = trim_start(s.drop_first());
        assert(s.drop_first().skip(s.drop_first().len() - t.len()) =~= s.skip(s.len() - t.len()));
        assert forall|i: int| 0 <= i < s.len() - t.len() implies is_ws(
            #[trigger] s.take(s.len() - t.len())[i],
        ) by {
            if i > 0 {
                assert(s.take(s.len() - t.len())[i] == s.drop_first().take(
                    s.drop_first().len() - t.len(),
                )[i - 1]);
            }
        }
    } else {
        assert(s.skip(0) =~= s);
    }
}

/// The trailing counterpart of [`lemma_trim_start_is_suffix`].
pub proof fn lemma_trim_end_is_prefix(s: Seq<char>)
    ensures
        trim_end(s).len() <= s.len(),
        trim_end(s) == s.take(trim_end(s).len() as int),
        all_ws(s.skip(trim_end(s).len() as int)),
        trim_end(s).len() > 0 ==> !is_ws(trim_end(s).last()),
    decreases s.len(),
{
    if s.len() > 0 && is_ws(s.last()) {
        lemma_trim_end_is_prefix(s.drop_last());
        let t = trim_end(s.drop_last());
        assert(s.drop_last().take(t.len() as int) =~= s.take(t.len() as int));
        assert forall|i: int| 0 <= i < s.len() - t.len() implies is_ws(
            #[trigger] s.skip(t.len() as int)[i],
        ) by {
            if i < s.len() - t.len() - 1 {
                assert(s.skip(t.len() as int)[i] == s.drop_last().skip(t.len() as int)[i]);
            }
        }
    } else {
        assert(s.take(s.len() as int) =~= s);
    }
}

/// A trimmed sequence is empty exactly when every character was white space.
pub proof fn lemma_trim_empty_iff_all_ws(s: Seq<char>)
    ensures
        (trim(s).len() == 0) == all_ws(s),
{
    lemma_trim_start_is_suffix(s);
    lemma_trim_end_is_prefix(trim_start(s));
    let k = s.len() - trim_start(s).len();
    if trim_start(s).len() == 0 {
        assert(s.take(k) =~= s);
    } else {
        assert(!is_ws(s[k]));
        assert(trim_end(trim_start(s)).len() > 0) by {
            if trim_end(trim_start(s)).len() == 0 {
                assert(trim_start(s).skip(0)[0] == trim_start(s)[0]);
            }
        }
    }
}

/// The bounds `(a, b)` with `v[a..b]` equal to `v[lo..hi]` trimmed.
pub fn trim_range(v: &Vec<char>, lo: usize, hi: usize) -> (r: (usize, usize))
    requires
        lo <= hi <= v@.len(),
    ensures
        lo <= r.0 <= r.1 <= hi,
        v@.subrange(r.0 as int, r.1 as int) == trim(v@.subrange(lo as int, hi as int)),
{
    let mut a = lo;
    while a < hi && is_whitespace(v[a])
        invariant
            lo <= a <= hi <= v@.len(),
            trim_start(v@.subrange(lo as int, hi as int)) == trim_start(
                v@.subrange(a as int, hi as int),
            ),
        decreases hi - a,
    {
        assert(v@.subrange(a as int, hi as int).drop_first() =~= v@.subrange(
            a + 1,
            hi as int,
        ));
        a = a + 1;
    }
    assert(trim_start(v@.subrange(a as int, hi as int)) == v@.subrange(a as int, hi as int));
    let mut b = hi;
    while b > a && is_whitespace(v[b - 1])
        invariant
            lo <= a <= b <= hi <= v@.len(),
            trim_end(v@.subrange(a as int, hi as int)) == trim_end(
                v@.subrange(a as int, b as int),
            ),
        decreases b - a,
    {
        assert(v@.subrange(a as int, b as int).drop_last() =~= v@.subrange(
            a as int,
            b - 1,
        ));
        b = b - 1;
    }
    (a, b)
}

// ---------------------------------------------------------------------------
// Strings and character vectors
// ---------------------------------------------------------------------------

/// Appends `c` to `s` (std's `String::push`).
#[verifier::external_body]
pub fn push_char(s: &mut String, c: char)
    ensures
        final(s)@ == old(s)@.push(c),
{
    s.push(c)
}

/// The characters of `s`, in order.
pub fn chars_of(s: &str) -> (v: Vec<char>)
    ensures
        v@ == s@,
{
    let mut v: Vec<char> = Vec::new();
    for c in it: s.chars()
        invariant
            it.seq() == s@,
            v@ =~= it.seq().take(it.index() as int),
    {
        v.push(c);
    }
    v
}

/// The string made of `v[lo..hi]`.
pub fn string_of_range(v: &Vec<char>, lo: usize, hi: usize) -> (s: String)
    requires
        lo <= hi <= v@.len(),
    ensures
        s@ == v@.subrange(lo as int, hi as int),
{
    let mut s = String::new();
    let mut i = lo;
    while i < hi
        invariant
            lo <= i <= hi <= v@.len(),
            s@ =~= v@.subrange(lo as int, i as int),
        decreases hi - i,
    {
        push_char(&mut s, v[i]);
        i = i + 1;
    }
    s
}

/// The string made of all of `v`.
pub fn string_of(v: &Vec<char>) -> (s: String)
    ensures
        s@ == v@,
{
    let s = string_of_range(v, 0, v.len());
    assert(v@.subrange(0, v@.len() as int) =~= v@);
    s
}

/// Appends every character of `t` to `s`.
pub fn push_seq(s: &mut String, t: &Vec<char>)
    ensures
        final(s)@ == old(s)@ + t@,
{
    let mut i: usize = 0;
    while i < t.len()
        invariant
            0 <= i <= t@.len(),
            s@ =~= old(s)@ + t@.take(i as int),
        decreases t@.len() - i,
    {
        push_char(s, t[i]);
        i = i + 1;
    }
    assert(t@.take(t@.len() as int) =~= t@);
}

// ---------------------------------------------------------------------------
// UTF-8 lengths
// ---------------------------------------------------------------------------

/// The number of bytes that `c` takes in UTF-8.
pub open spec fn utf8_width(c: char) -> nat {
    let u = c as u32;
    if u <= 0x7F {
        1
    } else if u <= 0x7FF {
        2
    } else if u <= 0xFFFF {
        3
    } else {
        4
    }
}

/// The number of bytes that `s` takes in UTF-8, as `str::len` counts them.
pub open spec fn utf8_len(s: Seq<char>) -> nat {
    encode_utf8(s).len()
}

/// One character's encoding is as long as [`utf8_width`] says.
pub proof fn lemma_encode_scalar_len(c: char)
    ensures
        encode_scalar(c as u32).len() == utf8_width(c),
{
    vstd::utf8::char_is_scalar(c);
}

/// The UTF-8 length of a concatenation is the sum of the lengths.
pub proof fn lemma_utf8_len_add(a: Seq<char>, b: Seq<char>)
    ensures
        encode_utf8(a + b) == encode_utf8(a) + encode_utf8(b),
        utf8_len(a + b) == utf8_len(a) + utf8_len(b),
    decreases a.len(),
{
    if a.len() == 0 {
        assert(a + b =~= b);
        assert(encode_utf8(a) =~= Seq::<u8>::empty());
        assert(encode_utf8(a) + encode_utf8(b) =~= encode_utf8(b));
    } else {
        lemma_utf8_len_add(a.drop_first(), b);
        assert((a + b).drop_first() =~= a.drop_first() + b);
        assert((a + b)[0] == a[0]);
        assert(encode_utf8(a + b) =~= encode_scalar(a[0] as u32) + encode_utf8(a.drop_first() + b));
        assert(encode_utf8(a) =~= encode_scalar(a[0] as u32) + encode_utf8(a.drop_first()));
    }
}

/// Appending one character adds its width.
pub proof fn lemma_utf8_len_push(a: Seq<char>, c: char)
    ensures
        utf8_len(a.push(c)) == utf8_len(a) + utf8_width(c),
{
    lemma_utf8_len_add(a, seq![c]);
    assert(a.push(c) =~= a + seq![c]);
    lemma_encode_scalar_len(c);
    assert(seq![c].drop_first() =~= Seq::<char>::empty());
    assert(encode_utf8(seq![c]) =~= encode_scalar(c as u32) + encode_utf8(Seq::<char>::empty()));
}

/// A string has at least as many bytes as characters.
pub proof fn lemma_utf8_len_ge_len(s: Seq<char>)
    ensures
        utf8_len(s) >= s.len(),
    decreases s.len(),
{
    if s.len() > 0 {
        lemma_utf8_len_ge_len(s.drop_last());
        lemma_utf8_len_push(s.drop_last(), s.last());
        assert(s.drop_last().push(s.last()) =~= s);
    }
}

/// The number of bytes that `c` takes in UTF-8.
pub fn char_utf8_width(c: char) -> (n: usize)
    ensures
        n == utf8_width(c),
{
    let u = c as u32;
    if u <= 0x7F {
        1
    } else if u <= 0x7FF {
        2
    } else if u <= 0xFFFF {
        3
    } else {
        4
    }
}

// ---------------------------------------------------------------------------
// Hexadecimal and decimal numerals
// ---------------------------------------------------------------------------

/// The lower-case hexadecimal digit for `d < 16`.
pub open spec fn hex_char(d: nat) -> char {
    if d < 10 {
        (48 + d) as char
    } else {
        (87 + d) as char
    }
}

/// `n` in lower-case hexadecimal without leading zeros, as `format!("{:x}", n)`.
pub open spec fn lower_hex(n: nat) -> Seq<char>
    decreases n,
{
    if n < 16 {
        seq![hex_char(n)]
    } else {
        lower_hex(n / 16).push(hex_char(n % 16))
    }
}

/// The decimal digit for `d < 10`.
pub open spec fn dec_char(d: nat) -> char {
    (48 + d) as char
}

/// `n` in decimal without leading zeros, as `format!("{}", n)`.
pub open spec fn decimal(n: nat) -> Seq<char>
    decreases n,
{
    if n < 10 {
        seq![dec_char(n)]
    } else {
        decimal(n / 10).push(dec_char(n % 10))
    }
}

/// `n` copies of `c`.
pub open spec fn repeat_char(c: char, n: nat) -> Seq<char> {
    Seq::new(n, |i: int| c)
}

/// `s` preceded by as many `c` as bring it to `width` characters.
pub open spec fn pad_left(s: Seq<char>, c: char, width: nat) -> Seq<char> {
    if s.len() < width {
        repeat_char(c, (width - s.len()) as nat) + s
    } else {
        s
    }
}

/// `s` followed by as many `c` as bring it to `width` characters.
pub open spec fn pad_right(s: Seq<char>, c: char, width: nat) -> Seq<char> {
    if s.len() < width {
        s + repeat_char(c, (width - s.len()) as nat)
    } else {
        s
    }
}

fn hex_digit(d: u32) -> (c: char)
    requires
        d < 16,
    ensures
        c == hex_char(d as nat),
{
    let b: u8 = if d < 10 {
        (48 + d) as u8
    } else {
        (87 + d) as u8
    };
    let c = b as char;
    proof {
        let u: u32 = if d < 10 {
            (48 + d) as u32
        } else {
            (87 + d) as u32
        };
        assert(c as u32 == u);
        vstd::utf8::char_u32_cast(c, u);
    }
    c
}

/// Appends `n` in lower-case hexadecimal to `out`.
pub fn push_lower_hex(out: &mut Vec<char>, n: u32)
    ensures
        final(out)@ == old(out)@ + lower_hex(n as nat),
    decreases n,
{
    if n >= 16 {
        push_lower_hex(out, n / 16);
    }
    let c = hex_digit(n % 16);
    out.push(c);
}

fn dec_digit(d: usize) -> (c: char)
    requires
        d < 10,
    ensures
        c == dec_char(d as nat),
{
    let b: u8 = (48 + d) as u8;
    let c = b as char;
    proof {
        let u: u32 = (48 + d) as u32;
        assert(c as u32 == u);
        vstd::utf8::char_u32_cast(c, u);
    }
    c
}

/// Appends `n` in decimal to `out`.
pub fn push_decimal(out: &mut Vec<char>, n: usize)
    ensures
        final(out)@ == old(out)@ + decimal(n as nat),
    decreases n,
{
    if n >= 10 {
        push_decimal(out, n / 10);
    }
    let c = dec_digit(n % 10);
    out.push(c);
}

/// `v` padded on the left with `c` up to `width` characters.
pub fn padded_left(v: Vec<char>, c: char, width: usize) -> (r: Vec<char>)
    ensures
        r@ == pad_left(v@, c, width as nat),
{
    if v.len() < width {
        let mut r: Vec<char> = Vec::new();
        let k = width - v.len();
        let mut i: usize = 0;
        while i < k
            invariant
                i <= k,
                r@ =~= repeat_char(c, i as nat),
            decreases k - i,
        {
            r.push(c);
            i = i + 1;
        }
        let mut j: usize = 0;
        while j < v.len()
            invariant
                j <= v@.len(),
                r@ =~= repeat_char(c, k as nat) + v@.take(j as int),
            decreases v@.len() - j,
        {
            r.push(v[j]);
            j = j + 1;
        }
        assert(v@.take(v@.len() as int) =~= v@);
        r
    } else {
        v
    }
}

/// `v` padded on the right with `c` up to `width` characters.
pub fn padded_right(v: Vec<char>, c: char, width: usize) -> (r: Vec<char>)
    ensures
        r@ == pad_right(v@, c, width as nat),
{
    let mut r = v;
    if r.len() < width {
        let ghost v0 = r@;
        let k = width - r.len();
        let mut i: usize = 0;
        while i < k
            invariant
                i <= k,
                k == width - v0.len(),
                r@ =~= v0 + repeat_char(c, i as nat),
            decreases k - i,
        {
            r.push(c);
            i = i + 1;
        }
    }
    r
}

// ---------------------------------------------------------------------------
// Hexadecimal parsing
// ---------------------------------------------------------------------------

/// Whether `c` is a hexadecimal digit of either case.
pub open spec fn is_hex_digit(c: char) -> bool {
    ('0' <= c && c <= '9') || ('a' <= c && c <= 'f') || ('A' <= c && c <= 'F')
}

/// The value of the hexadecimal digit `c`.
pub open spec fn hex_value(c: char) -> nat {
    if '0' <= c && c <= '9' {
        (c as u32 - 48) as nat
    } else if 'a' <= c && c <= 'f' {
        (c as u32 - 87) as nat
    } else {
        (c as u32 - 55) as nat
    }
}

/// The value of a string of hexadecimal digits, most significant first.
pub open spec fn hex_number(s: Seq<char>) -> nat
    decreases s.len(),
{
    if s.len() == 0 {
        0
    } else {
        hex_number(s.drop_last()) * 16 + hex_value(s.last())
    }
}

/// The digits of a numeral: `s` without one leading `+`.
pub open spec fn unsigned_digits(s: Seq<char>) -> Seq<char> {
    if s.len() > 0 && s[0] == '+' {
        s.drop_first()
    } else {
        s
    }
}

/// Whether every character of `d` is a hexadecimal digit.
pub open spec fn all_hex_digits(d: Seq<char>) -> bool {
    forall|i: int| 0 <= i < d.len() ==> is_hex_digit(#[trigger] d[i])
}

/// `u32::from_str_radix(s, 16)`: an optional `+`, then at least one
/// hexadecimal digit, with a value that fits in a `u32`.
pub open spec fn parse_hex_u32(s: Seq<char>) -> Option<u32> {
    let d = unsigned_digits(s);
    if d.len() > 0 && all_hex_digits(d) && hex_number(d) <= u32::MAX {
        Some(hex_number(d) as u32)
    } else {
        None
    }
}

/// A longer digit string is worth at least as much as its prefix.
pub proof fn lemma_hex_number_prefix(s: Seq<char>, i: int)
    requires
        0 <= i <= s.len(),
    ensures
        hex_number(s.take(i)) <= hex_number(s),
    decreases s.len() - i,
{
    if i < s.len() {
        lemma_hex_number_prefix(s, i + 1);
        assert(s.take(i + 1).drop_last() =~= s.take(i));
    } else {
        assert(s.take(i) =~= s);
    }
}

fn hex_digit_value(c: char) -> (r: Option<u32>)
    ensures
        r is Some <==> is_hex_digit(c),
        r is Some ==> r->0 == hex_value(c) && r->0 < 16,
{
    let u = c as u32;
    if '0' <= c && c <= '9' {
        Some(u - 48)
    } else if 'a' <= c && c <= 'f' {
        Some(u - 87)
    } else if 'A' <= c && c <= 'F' {
        Some(u - 55)
    } else {
        None
    }
}

/// `v[lo..hi]` read as `u32::from_str_radix(_, 16)` reads it.
pub fn parse_hex_range(v: &Vec<char>, lo: usize, hi: usize) -> (r: Option<u32>)
    requires
        lo <= hi <= v@.len(),
    ensures
        r == parse_hex_u32(v@.subrange(lo as int, hi as int)),
{
    let ghost s = v@.subrange(lo as int, hi as int);
    let mut start = lo;
    if lo < hi && v[lo] == '+' {
        start = lo + 1;
        assert(s.drop_first() =~= v@.subrange(start as int, hi as int));
    } else {
        assert(s =~= v@.subrange(start as int, hi as int));
    }
    let ghost d = v@.subrange(start as int, hi as int);
    assert(d == unsigned_digits(s));
    if start == hi {
        return None;
    }
    let mut acc: u32 = 0;
    let mut i = start;
    while i < hi
        invariant
            lo <= start <= i <= hi <= v@.len(),
            d == v@.subrange(start as int, hi as int),
            s == v@.subrange(lo as int, hi as int),
            d == unsigned_digits(s),
            acc as nat == hex_number(d.take(i - start)),
            forall|j: int| 0 <= j < i - start ==> is_hex_digit(#[trigger] d[j]),
        decreases hi - i,
    {
        assert(d.take(i - start + 1).drop_last() =~= d.take(i - start));
        assert(d.take(i - start + 1).last() == v@[i as int]);
        match hex_digit_value(v[i]) {
            None => {
                assert(d[i - start] == v@[i as int]);
                assert(!is_hex_digit(d[i - start]));
                return None;
            },
            Some(x) => {
                if acc > (u32::MAX - x) / 16 {
                    proof {
                        assert(hex_number(d.take(i - start + 1)) > u32::MAX) by (nonlinear_arith)
                            requires
                                hex_number(d.take(i - start + 1)) == acc as nat * 16 + x as nat,
                                acc > (u32::MAX - x) / 16,
                                x < 16,
                        ;
                        lemma_hex_number_prefix(d, i - start + 1);
                    }
                    return None;
                }
                proof {
                    assert(acc * 16 + x <= u32::MAX) by (nonlinear_arith)
                        requires
                            acc <= (u32::MAX - x) / 16,
                            x < 16,
                    ;
                }
                acc = acc * 16 + x;
            },
        }
        i = i + 1;
    }
    assert(d.take(hi - start) =~= d);
    Some(acc)
}

// ---------------------------------------------------------------------------
// Searching
// ---------------------------------------------------------------------------

/// The position of the first `c` in `s`, as `str::find` gives it (in characters).
pub open spec fn index_of(s: Seq<char>, c: char) -> Option<nat>
    decreases s.len(),
{
    if s.len() == 0 {
        None
    } else if s[0] == c {
        Some(0)
    } else {
        match index_of(s.drop_first(), c) {
            Some(k) => Some(k + 1),
            None => None,
        }
    }
}

/// What [`index_of`] gives: nothing when `c` does not occur, else the first
/// position that holds `c`.
pub proof fn lemma_index_of(s: Seq<char>, c: char)
    ensures
        index_of(s, c) is None <==> (forall|j: int| 0 <= j < s.len() ==> s[j] != c),
        index_of(s, c) is Some ==> {
            let k = index_of(s, c)->0;
            &&& k < s.len()
            &&& s[k as int] == c
            &&& forall|j: int| 0 <= j < k ==> s[j] != c
        },
    decreases s.len(),
{
    if s.len() > 0 && s[0] != c {
        lemma_index_of(s.drop_first(), c);
        if index_of(s.drop_first(), c) is None {
            assert forall|j: int| 0 <= j < s.len() implies s[j] != c by {
                if j > 0 {
                    assert(s[j] == s.drop_first()[j - 1]);
                }
            }
        } else {
            let k = index_of(s.drop_first(), c)->0;
            assert forall|j: int| 0 <= j < k + 1 implies s[j] != c by {
                if j > 0 {
                    assert(s[j] == s.drop_first()[j - 1]);
                }
            }
            assert(s[k + 1int] == s.drop_first()[k as int]);
        }
    }
}

/// The position of the first `c` in `v[lo..hi]`, counted from the start of `v`.
pub fn find_char(v: &Vec<char>, lo: usize, hi: usize, c: char) -> (r: Option<usize>)
    requires
        lo <= hi <= v@.len(),
    ensures
        match r {
            Some(i) => lo <= i < hi && index_of(v@.subrange(lo as int, hi as int), c) == Some(
                (i - lo) as nat,
            ),
            None => index_of(v@.subrange(lo as int, hi as int), c) is None,
        },
{
    let ghost s = v@.subrange(lo as int, hi as int);
    proof {
        lemma_index_of(s, c);
    }
    let mut i = lo;
    while i < hi
        invariant
            lo <= i <= hi <= v@.len(),
            s == v@.subrange(lo as int, hi as int),
            forall|j: int| 0 <= j < i - lo ==> s[j] != c,
        decreases hi - i,
    {
        if v[i] == c {
            assert(s[i - lo] == c);
            proof {
                lemma_index_of(s, c);
            }
            return Some(i);
        }
        i = i + 1;
    }
    None
}

/// Whether `p` is a prefix of `s`.
pub open spec fn has_prefix(s: Seq<char>, p: Seq<char>) -> bool {
    p.len() <= s.len() && s.take(p.len() as int) == p
}

/// Whether `p` is a prefix of `v[lo..hi]`.
pub fn starts_with_range(v: &Vec<char>, lo: usize, hi: usize, p: &Vec<char>) -> (b: bool)
    requires
        lo <= hi <= v@.len(),
    ensures
        b == has_prefix(v@.subrange(lo as int, hi as int), p@),
{
    let ghost s = v@.subrange(lo as int, hi as int);
    if p.len() > hi - lo {
        return false;
    }
    let mut i: usize = 0;
    while i < p.len()
        invariant
            lo <= hi <= v@.len(),
            p@.len() <= hi - lo,
            s == v@.subrange(lo as int, hi as int),
            0 <= i <= p@.len(),
            forall|j: int| 0 <= j < i ==> s[j] == p@[j],
        decreases p@.len() - i,
    {
        if v[lo + i] != p[i] {
            assert(s.take(p@.len() as int)[i as int] != p@[i as int]);
            return false;
        }
        i = i + 1;
    }
    assert(s.take(p@.len() as int) =~= p@);
    true
}

// ---------------------------------------------------------------------------
// Byte offsets
// ---------------------------------------------------------------------------

/// Whether the first `k` characters of `s` take exactly `p` bytes, that is,
/// whether byte offset `p` is the character boundary before `s[k]`.
pub open spec fn is_char_offset(s: Seq<char>, p: int, k: int) -> bool {
    0 <= k <= s.len() && utf8_len(s.take(k)) == p
}

/// Longer prefixes take strictly more bytes.
pub proof fn lemma_utf8_len_take_strict(s: Seq<char>, k1: int, k2: int)
    requires
        0 <= k1 < k2 <= s.len(),
    ensures
        utf8_len(s.take(k1)) < utf8_len(s.take(k2)),
{
    assert(s.take(k2) =~= s.take(k1) + s.subrange(k1, k2));
    lemma_utf8_len_add(s.take(k1), s.subrange(k1, k2));
    lemma_utf8_len_ge_len(s.subrange(k1, k2));
}

/// A byte offset falls on at most one character boundary.
pub proof fn lemma_char_offset_unique(s: Seq<char>, p: int, k1: int, k2: int)
    requires
        is_char_offset(s, p, k1),
        is_char_offset(s, p, k2),
    ensures
        k1 == k2,
{
    if k1 < k2 {
        lemma_utf8_len_take_strict(s, k1, k2);
    } else if k2 < k1 {
        lemma_utf8_len_take_strict(s, k2, k1);
    }
}

/// The character index at byte offset `p` of `v`, if `p` is a character
/// boundary of `v`.
pub fn char_index_at_byte(v: &Vec<char>, p: usize) -> (r: Option<usize>)
    ensures
        match r {
            Some(k) => is_char_offset(v@, p as int, k as int),
            None => forall|k: int| !is_char_offset(v@, p as int, k),
        },
{
    let mut acc: usize = 0;
    let mut i: usize = 0;
    assert(v@.take(0) =~= Seq::<char>::empty());
    assert(utf8_len(Seq::<char>::empty()) == 0) by {
        assert(encode_utf8(Seq::<char>::empty()) =~= Seq::<u8>::empty());
    }
    while i < v.len() && acc < p
        invariant
            0 <= i <= v@.len(),
            acc <= p,
            acc == utf8_len(v@.take(i as int)),
        decreases v@.len() - i,
    {
        let w = char_utf8_width(v[i]);
        proof {
            assert(v@.take(i as int).push(v@[i as int]) =~= v@.take(i + 1));
            lemma_utf8_len_push(v@.take(i as int), v@[i as int]);
        }
        if w > p - acc {
            proof {
                assert forall|k: int| !is_char_offset(v@, p as int, k) by {
                    if 0 <= k <= i {
                        if k < i {
                            lemma_utf8_len_take_strict(v@, k, i as int);
                        }
                    } else if i + 1 <= k <= v@.len() {
                        if k > i + 1 {
                            lemma_utf8_len_take_strict(v@, i + 1, k);
                        }
                    }
                }
            }
            return None;
        }
        acc = acc + w;
        i = i + 1;
    }
    if acc == p {
        Some(i)
    } else {
        proof {
            assert forall|k: int| !is_char_offset(v@, p as int, k) by {
                if 0 <= k < i {
                    lemma_utf8_len_take_strict(v@, k, i as int);
                }
            }
        }
        None
    }
}

} // verus!
