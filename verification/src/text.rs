//! Text helpers: strings as character sequences, case conversion, and
//! rendering numbers and values into messages.

use vstd::prelude::*;
use crate::types::Value;

verus! {

/// `String::push`: appends one character to a string.
#[verifier::external_body]
pub(crate) fn push_char(s: &mut String, c: char)
    ensures
        final(s)@ == old(s)@.push(c),
{
    s.push(c)
}

/// The result of `str::to_uppercase` (Unicode upper-casing).
pub uninterp spec fn spec_to_uppercase(s: Seq<char>) -> Seq<char>;

/// `str::to_uppercase`: the Unicode upper-case form of `s`.
#[verifier::external_body]
pub(crate) fn to_uppercase(s: &str) -> (u: String)
    ensures
        u@ == spec_to_uppercase(s@),
{
    s.to_uppercase()
}

/// The result of `str::to_lowercase` (Unicode lower-casing).
pub uninterp spec fn spec_to_lowercase(s: Seq<char>) -> Seq<char>;

/// `str::to_lowercase`: the Unicode lower-case form of `s`.
#[verifier::external_body]
pub(crate) fn to_lowercase(s: &str) -> (l: String)
    ensures
        l@ == spec_to_lowercase(s@),
{
    s.to_lowercase()
}

/// `String::from_utf8`: the string whose UTF-8 encoding is `bytes`, or
/// `None` when `bytes` is not valid UTF-8.
#[verifier::external_body]
pub(crate) fn string_from_utf8(bytes: Vec<u8>) -> (r: Option<String>)
    ensures
        r is Some <==> vstd::utf8::valid_utf8(bytes@),
        r matches Some(s) ==> s@ == vstd::utf8::decode_utf8(bytes@),
{
    String::from_utf8(bytes).ok()
}

/// The `Debug` rendering of a value (the text of a derived impl, which is
/// not specified here).
#[verifier::external_body]
pub(crate) fn debug_value(v: &Value) -> String {
    format!("{:?}", v)
}

/// The digit character for `d` (`'0'` to `'9'`).
pub open spec fn digit_char(d: nat) -> char {
    ((48 + d) as u8) as char
}

/// The decimal rendering of `n`, without leading zeros.
pub open spec fn decimal_text(n: nat) -> Seq<char>
    decreases n,
{
    if n < 10 {
        seq![digit_char(n)]
    } else {
        decimal_text(n / 10).push(digit_char(n % 10))
    }
}

/// The decimal rendering of `n`.
pub fn decimal(n: usize) -> (s: String)
    ensures
        s@ == decimal_text(n as nat),
    decreases n,
{
    let d: u8 = (n % 10) as u8;
    let c: char = (48u8 + d) as char;
    if n < 10 {
        let mut s = String::new();
        push_char(&mut s, c);
        assert(s@ =~= seq![c]);
        s
    } else {
        let mut s = decimal(n / 10);
        push_char(&mut s, c);
        s
    }
}

/// The characters of `s`, in order.
pub fn chars_of(s: &str) -> (v: Vec<char>)
    ensures
        v@ == s@,
{
    let mut v: Vec<char> = Vec::new();
    for c in it: s.chars()
        invariant
            v@ == it.seq().subrange(0, it.index() as int),
    {
        v.push(c);
    }
    v
}

/// A string made of the given characters.
pub fn string_of(v: &[char]) -> (s: String)
    ensures
        s@ == v@,
{
    let mut s = String::new();
    let mut i: usize = 0;
    while i < v.len()
        invariant
            i <= v@.len(),
            s@ == v@.subrange(0, i as int),
        decreases v.len() - i,
    {
        push_char(&mut s, v[i]);
        i = i + 1;
    }
    assert(s@ =~= v@);
    s
}

/// Whether two strings hold the same characters.
pub fn str_eq(a: &str, b: &str) -> (r: bool)
    ensures
        r == (a@ == b@),
{
    let va = chars_of(a);
    let vb = chars_of(b);
    if va.len() != vb.len() {
        return false;
    }
    let mut i: usize = 0;
    while i < va.len()
        invariant
            i <= va@.len(),
            va@.len() == vb@.len(),
            va@ == a@,
            vb@ == b@,
            forall|j: int| 0 <= j < i ==> va@[j] == vb@[j],
        decreases va.len() - i,
    {
        if va[i] != vb[i] {
            assert(va@[i as int] != vb@[i as int]);
            return false;
        }
        i = i + 1;
    }
    assert(va@ =~= vb@);
    true
}

/// Whether the characters `v` spell the literal `lit`.
pub fn chars_eq(v: &Vec<char>, lit: &str) -> (b: bool)
    ensures
        b == (v@ == lit@),
{
    let l = chars_of(lit);
    if v.len() != l.len() {
        return false;
    }
    let mut i: usize = 0;
    while i < v.len()
        invariant
            i <= v@.len(),
            v@.len() == l@.len(),
            l@ == lit@,
            forall|j: int| 0 <= j < i ==> v@[j] == l@[j],
        decreases v.len() - i,
    {
        if v[i] != l[i] {
            assert(v@[i as int] != l@[i as int]);
            return false;
        }
        i = i + 1;
    }
    assert(v@ =~= l@);
    true
}

/// Unicode White_Space, the whitespace of `str::trim` and of `\\s` in
/// patterns.
pub open spec fn is_space(c: char) -> bool {
    let u = c as u32;
    u == 0x20 || (0x09 <= u && u <= 0x0d) || u == 0x85 || u == 0xa0 || u == 0x1680 || (0x2000 <= u
        && u <= 0x200a) || u == 0x2028 || u == 0x2029 || u == 0x202f || u == 0x205f || u == 0x3000
}

/// Whether `c` is whitespace.
pub fn space(c: char) -> (b: bool)
    ensures
        b == is_space(c),
{
    let u = c as u32;
    u == 0x20 || (0x09 <= u && u <= 0x0d) || u == 0x85 || u == 0xa0 || u == 0x1680 || (0x2000 <= u
        && u <= 0x200a) || u == 0x2028 || u == 0x2029 || u == 0x202f || u == 0x205f || u == 0x3000
}

/// An identifier character, as the pattern class `\w` holds it: an ASCII
/// letter or digit or `_`, and beyond ASCII what the regex crate's Unicode
/// word class matches (the outcome of the pattern `^\w$` on `c` alone).
pub open spec fn is_word(c: char) -> bool {
    if (c as u32) < 128 {
        ('a' <= c && c <= 'z') || ('A' <= c && c <= 'Z') || ('0' <= c && c <= '9') || c == '_'
    } else {
        crate::parser::regex_outcome("^\\w$"@, seq![c]) == Some(true)
    }
}

/// Whether `c` is an identifier character.
pub fn word(c: char) -> (b: bool)
    ensures
        b == is_word(c),
{
    if (c as u32) < 128 {
        ('a' <= c && c <= 'z') || ('A' <= c && c <= 'Z') || ('0' <= c && c <= '9') || c == '_'
    } else {
        let mut one = String::new();
        push_char(&mut one, c);
        assert(one@ =~= seq![c]);
        match crate::parser::regex_match("^\\w$", one.as_str()) {
            Ok(b) => b,
            Err(_) => false,
        }
    }
}

/// `c` with an ASCII lower-case letter made upper-case.
pub open spec fn ascii_upper(c: char) -> char {
    if 'a' <= c && c <= 'z' {
        ((c as u32) - 32) as char
    } else {
        c
    }
}

/// `c` under simple case folding, as far as it concerns the ASCII letters:
/// an ASCII lower-case letter made upper-case, and the two other characters
/// that fold to an ASCII letter, `U+017F` (long s) and `U+212A` (Kelvin
/// sign), made `S` and `K`.
pub open spec fn fold_case(c: char) -> char {
    if c == '\u{17f}' {
        'S'
    } else if c == '\u{212a}' {
        'K'
    } else {
        ascii_upper(c)
    }
}

/// Whether two characters are equal under case folding (`fold_case`).
pub fn same_letter(a: char, b: char) -> (r: bool)
    ensures
        r == (fold_case(a) == fold_case(b)),
{
    let ua = if a == '\u{17f}' {
        'S'
    } else if a == '\u{212a}' {
        'K'
    } else if 'a' <= a && a <= 'z' {
        ((a as u32) - 32) as u8 as char
    } else {
        a
    };
    let ub = if b == '\u{17f}' {
        'S'
    } else if b == '\u{212a}' {
        'K'
    } else if 'a' <= b && b <= 'z' {
        ((b as u32) - 32) as u8 as char
    } else {
        b
    };
    proof {
        assert(('a' <= a && a <= 'z') ==> ((a as u32) - 32) as u8 as char == ((a as u32) - 32) as char);
        assert(('a' <= b && b <= 'z') ==> ((b as u32) - 32) as u8 as char == ((b as u32) - 32) as char);
    }
    ua == ub
}

/// The first index from `i` on that is not whitespace.
pub open spec fn skip_space(s: Seq<char>, i: int) -> int
    decreases s.len() - i,
{
    if 0 <= i < s.len() && is_space(s[i]) {
        skip_space(s, i + 1)
    } else {
        i
    }
}

/// The first index from `i` on that is not an identifier character.
pub open spec fn word_end(s: Seq<char>, i: int) -> int
    decreases s.len() - i,
{
    if 0 <= i < s.len() && is_word(s[i]) {
        word_end(s, i + 1)
    } else {
        i
    }
}

/// The end of `s[lo..j]` once trailing whitespace is dropped.
pub open spec fn trim_end_at(s: Seq<char>, lo: int, j: int) -> int
    decreases j - lo,
{
    if j > lo && is_space(s[j - 1]) {
        trim_end_at(s, lo, j - 1)
    } else {
        j
    }
}

/// `s` without leading and trailing whitespace, as `str::trim` gives it.
pub open spec fn trim(s: Seq<char>) -> Seq<char> {
    let lo = skip_space(s, 0);
    s.subrange(lo, trim_end_at(s, lo, s.len() as int))
}

/// Whether `s` holds `kw` at `i`, ignoring case as a case-insensitive
/// pattern does (`fold_case`).
pub open spec fn has_keyword(s: Seq<char>, i: int, kw: Seq<char>) -> bool {
    &&& 0 <= i
    &&& i + kw.len() <= s.len()
    &&& forall|k: int| 0 <= k < kw.len() ==> fold_case(#[trigger] s[i + k]) == fold_case(kw[k])
}

/// Whether `s` starts with `p`.
pub open spec fn starts_with(s: Seq<char>, p: Seq<char>) -> bool {
    p.len() <= s.len() && s.subrange(0, p.len() as int) == p
}

/// The index of the first `c` in `s` from `i` on, or the length.
pub open spec fn find_char(s: Seq<char>, c: char, i: int) -> int
    decreases s.len() - i,
{
    if 0 <= i < s.len() && s[i] != c {
        find_char(s, c, i + 1)
    } else {
        i
    }
}

/// The pieces of `s` between the separators `sep`, as `str::split` gives
/// them (empty pieces included).
pub open spec fn split(s: Seq<char>, sep: char) -> Seq<Seq<char>>
    decreases s.len(),
{
    let k = find_char(s, sep, 0);
    if k >= s.len() {
        seq![s]
    } else {
        proof {
            lemma_find_char_ge(s, sep, 0);
        }
        seq![s.subrange(0, k)] + split(s.subrange(k + 1, s.len() as int), sep)
    }
}

/// The maximal runs of non-whitespace in `s`, as `str::split_whitespace`
/// gives them.
pub open spec fn words(s: Seq<char>) -> Seq<Seq<char>>
    decreases s.len(),
{
    let a = skip_space(s, 0);
    if a >= s.len() {
        seq![]
    } else {
        let b = non_space_end(s, a);
        proof {
            lemma_skip_space_ge(s, 0);
            lemma_non_space_end_bounds(s, a);
        }
        seq![s.subrange(a, b)] + words(s.subrange(b, s.len() as int))
    }
}

/// The search for a character does not go back.
pub proof fn lemma_find_char_ge(s: Seq<char>, c: char, i: int)
    requires
        0 <= i,
    ensures
        i <= find_char(s, c, i),
    decreases s.len() - i,
{
    if 0 <= i < s.len() && s[i] != c {
        lemma_find_char_ge(s, c, i + 1);
    }
}

/// Skipping whitespace does not go back, nor past the end.
pub proof fn lemma_skip_space_ge(s: Seq<char>, i: int)
    requires
        0 <= i <= s.len(),
    ensures
        i <= skip_space(s, i) <= s.len(),
        skip_space(s, i) < s.len() ==> !is_space(s[skip_space(s, i)]),
    decreases s.len() - i,
{
    if 0 <= i < s.len() && is_space(s[i]) {
        lemma_skip_space_ge(s, i + 1);
    }
}

/// A run of non-whitespace that starts on non-whitespace is not empty.
pub proof fn lemma_non_space_end_bounds(s: Seq<char>, i: int)
    requires
        0 <= i < s.len(),
        !is_space(s[i]),
    ensures
        i < non_space_end(s, i) <= s.len(),
    decreases s.len() - i,
{
    if i + 1 < s.len() && !is_space(s[i + 1]) {
        lemma_non_space_end_bounds(s, i + 1);
    } else {
        assert(non_space_end(s, i + 1) == i + 1);
    }
}

/// The first index from `i` on that is whitespace, or the length.
pub open spec fn non_space_end(s: Seq<char>, i: int) -> int
    decreases s.len() - i,
{
    if 0 <= i < s.len() && !is_space(s[i]) {
        non_space_end(s, i + 1)
    } else {
        i
    }
}

/// The first index from `i` on that is not whitespace.
pub fn skip_spaces(s: &Vec<char>, i: usize) -> (j: usize)
    requires
        i <= s@.len(),
    ensures
        j == skip_space(s@, i as int),
        i <= j <= s@.len(),
{
    let mut j = i;
    while j < s.len() && space(s[j])
        invariant
            i <= j <= s@.len(),
            skip_space(s@, i as int) == skip_space(s@, j as int),
        decreases s.len() - j,
    {
        j = j + 1;
    }
    j
}

/// The first index from `i` on that is not an identifier character.
pub fn word_end_from(s: &Vec<char>, i: usize) -> (j: usize)
    requires
        i <= s@.len(),
    ensures
        j == word_end(s@, i as int),
        i <= j <= s@.len(),
{
    let mut j = i;
    while j < s.len() && word(s[j])
        invariant
            i <= j <= s@.len(),
            word_end(s@, i as int) == word_end(s@, j as int),
        decreases s.len() - j,
    {
        j = j + 1;
    }
    j
}

/// The first whitespace index from `i` on, or the length.
pub fn non_space_end_from(s: &Vec<char>, i: usize) -> (j: usize)
    requires
        i <= s@.len(),
    ensures
        j == non_space_end(s@, i as int),
        i <= j <= s@.len(),
{
    let mut j = i;
    while j < s.len() && !space(s[j])
        invariant
            i <= j <= s@.len(),
            non_space_end(s@, i as int) == non_space_end(s@, j as int),
        decreases s.len() - j,
    {
        j = j + 1;
    }
    j
}

/// Whether `s` holds the keyword `kw` at `i`, ignoring case (`fold_case`).
pub fn keyword_at(s: &Vec<char>, i: usize, kw: &str) -> (b: bool)
    ensures
        b == has_keyword(s@, i as int, kw@),
{
    let k = chars_of(kw);
    let n = s.len();
    if i > n || k.len() > n - i {
        return false;
    }
    let mut j: usize = 0;
    while j < k.len()
        invariant
            j <= k@.len(),
            n == s@.len(),
            k@ == kw@,
            i + k@.len() <= s@.len(),
            forall|m: int| 0 <= m < j ==> fold_case(#[trigger] s@[i + m]) == fold_case(k@[m]),
        decreases k.len() - j,
    {
        if !same_letter(s[i + j], k[j]) {
            return false;
        }
        j = j + 1;
    }
    true
}

/// The characters `s[from..to]`.
pub fn sub_chars(s: &Vec<char>, from: usize, to: usize) -> (v: Vec<char>)
    requires
        from <= to <= s@.len(),
    ensures
        v@ == s@.subrange(from as int, to as int),
{
    let mut v: Vec<char> = Vec::new();
    let mut i = from;
    while i < to
        invariant
            from <= i <= to,
            to <= s@.len(),
            v@ == s@.subrange(from as int, i as int),
        decreases to - i,
    {
        v.push(s[i]);
        i = i + 1;
    }
    v
}

/// `s` without leading and trailing whitespace.
pub fn trim_chars(s: &Vec<char>) -> (t: Vec<char>)
    ensures
        t@ == trim(s@),
{
    let lo = skip_spaces(s, 0);
    let mut hi = s.len();
    while hi > lo && space(s[hi - 1])
        invariant
            lo <= hi <= s@.len(),
            lo == skip_space(s@, 0),
            trim_end_at(s@, lo as int, s@.len() as int) == trim_end_at(s@, lo as int, hi as int),
        decreases hi,
    {
        hi = hi - 1;
    }
    sub_chars(s, lo, hi)
}

/// The pieces of `s` between the separators `sep`.
pub fn split_chars(s: &Vec<char>, sep: char) -> (pieces: Vec<Vec<char>>)
    ensures
        pieces@.map_values(|p: Vec<char>| p@) == split(s@, sep),
{
    let mut pieces: Vec<Vec<char>> = Vec::new();
    let mut start: usize = 0;
    let mut i: usize = 0;
    proof {
        assert(s@.subrange(0, s@.len() as int) =~= s@);
        assert(pieces@.map_values(|p: Vec<char>| p@) + split(s@, sep) =~= split(s@, sep));
        lemma_find_char_ge(s@, sep, 0);
    }
    while i < s.len()
        invariant
            start <= i <= s@.len(),
            find_char(s@.subrange(start as int, s@.len() as int), sep, 0) >= i - start,
            split(s@, sep) == pieces@.map_values(|p: Vec<char>| p@) + split(
                s@.subrange(start as int, s@.len() as int),
                sep,
            ),
        decreases s.len() - i,
    {
        if s[i] == sep {
            let piece = sub_chars(s, start, i);
            proof {
                let rest = s@.subrange(start as int, s@.len() as int);
                lemma_find_char_at(rest, sep, 0, i - start);
                assert(rest.subrange(0, i - start) =~= piece@);
                assert(rest.subrange(i - start + 1, rest.len() as int) =~= s@.subrange(i + 1, s@.len() as int));
                assert(pieces@.push(piece).map_values(|p: Vec<char>| p@) =~= pieces@.map_values(|p: Vec<char>| p@).push(piece@));
                lemma_find_char_ge(s@.subrange(i + 1, s@.len() as int), sep, 0);
            }
            pieces.push(piece);
            start = i + 1;
        } else {
            proof {
                let rest = s@.subrange(start as int, s@.len() as int);
                lemma_find_char_skip(rest, sep, i - start);
            }
        }
        i = i + 1;
    }
    let last = sub_chars(s, start, s.len());
    proof {
        let rest = s@.subrange(start as int, s@.len() as int);
        assert(rest =~= last@);
        assert(pieces@.push(last).map_values(|p: Vec<char>| p@) =~= pieces@.map_values(|p: Vec<char>| p@).push(last@));
    }
    pieces.push(last);
    pieces
}

/// When no `c` occurs before `k` but one does at `k`, the search finds `k`.
pub proof fn lemma_find_char_at(s: Seq<char>, c: char, i: int, k: int)
    requires
        0 <= i <= k < s.len(),
        s[k] == c,
        find_char(s, c, i) >= k,
    ensures
        find_char(s, c, i) == k,
    decreases k - i,
{
    if i < k {
        lemma_find_char_at(s, c, i + 1, k);
    }
}

/// The search for `c` gets past a character that is not `c`.
pub proof fn lemma_find_char_skip(s: Seq<char>, c: char, k: int)
    requires
        0 <= k < s.len(),
        s[k] != c,
        find_char(s, c, 0) >= k,
    ensures
        find_char(s, c, 0) >= k + 1,
{
    lemma_find_char_from(s, c, 0, k);
}

proof fn lemma_find_char_from(s: Seq<char>, c: char, i: int, k: int)
    requires
        0 <= i <= k < s.len(),
        s[k] != c,
        find_char(s, c, i) >= k,
    ensures
        find_char(s, c, i) >= k + 1,
    decreases k - i,
{
    if i < k {
        lemma_find_char_from(s, c, i + 1, k);
    } else {
        lemma_find_char_ge(s, c, k + 1);
    }
}

/// The maximal runs of non-whitespace in `s`.
pub fn words_of(s: &Vec<char>) -> (ws: Vec<Vec<char>>)
    ensures
        ws@.map_values(|p: Vec<char>| p@) == words(s@),
{
    let mut ws: Vec<Vec<char>> = Vec::new();
    let mut i: usize = 0;
    proof {
        assert(s@.subrange(0, s@.len() as int) =~= s@);
        assert(ws@.map_values(|p: Vec<char>| p@) + words(s@) =~= words(s@));
    }
    while i < s.len()
        invariant
            i <= s@.len(),
            words(s@) == ws@.map_values(|p: Vec<char>| p@) + words(s@.subrange(i as int, s@.len() as int)),
        decreases s.len() - i,
    {
        let a = skip_spaces(s, i);
        if a >= s.len() {
            proof {
                let rest = s@.subrange(i as int, s@.len() as int);
                lemma_skip_space_shift(s@, i as int, 0);
                assert(words(rest) =~= Seq::<Seq<char>>::empty());
                assert(s@.subrange(s@.len() as int, s@.len() as int) =~= Seq::<char>::empty());
                assert(words(Seq::<char>::empty()) =~= Seq::<Seq<char>>::empty());
            }
            i = s.len();
        } else {
            let b = non_space_end_from(s, a);
            let w = sub_chars(s, a, b);
            proof {
                let rest = s@.subrange(i as int, s@.len() as int);
                lemma_skip_space_shift(s@, i as int, 0);
                lemma_non_space_end_shift(s@, i as int, a - i);
                assert(rest.subrange(a - i, b - i) =~= w@);
                assert(rest.subrange(b - i, rest.len() as int) =~= s@.subrange(b as int, s@.len() as int));
                assert(ws@.push(w).map_values(|p: Vec<char>| p@) =~= ws@.map_values(|p: Vec<char>| p@).push(w@));
            }
            ws.push(w);
            i = b;
        }
    }
    proof {
        assert(s@.subrange(s@.len() as int, s@.len() as int) =~= Seq::<char>::empty());
        assert(words(Seq::<char>::empty()) =~= Seq::<Seq<char>>::empty());
    }
    ws
}

/// Skipping whitespace in a suffix is skipping it in the whole.
pub proof fn lemma_skip_space_shift(s: Seq<char>, base: int, j: int)
    requires
        0 <= base <= s.len(),
        0 <= j <= s.len() - base,
    ensures
        skip_space(s.subrange(base, s.len() as int), j) == skip_space(s, base + j) - base,
    decreases s.len() - base - j,
{
    if j < s.len() - base && is_space(s[base + j]) {
        lemma_skip_space_shift(s, base, j + 1);
    }
}

/// Finding the end of a run in a suffix is finding it in the whole.
pub proof fn lemma_non_space_end_shift(s: Seq<char>, base: int, j: int)
    requires
        0 <= base <= s.len(),
        0 <= j <= s.len() - base,
    ensures
        non_space_end(s.subrange(base, s.len() as int), j) == non_space_end(s, base + j) - base,
    decreases s.len() - base - j,
{
    if j < s.len() - base && !is_space(s[base + j]) {
        lemma_non_space_end_shift(s, base, j + 1);
    }
}

} // verus!
