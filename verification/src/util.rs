//! Name normalization and file classification.
//!
//! C++-style identifiers (`FooBarHeader`) are turned into the project's unit
//! naming convention (`foo_bar_header`), and file names are classified into
//! roles (header, template, source, test, unknown) by suffix, more specific
//! suffixes first.

use vstd::prelude::*;
use vstd::string::*;

verus! {

/// Role of a file within a compilation unit, decided by its name's suffix.
#[derive(PartialEq, Eq, Structural, Clone, Copy, Debug)]
pub enum FileType {
    UNKNOWN,
    HEADER,
    SOURCE,
    TEMPLATE,
    TEST,
}

/// Class of a character for the camel/Pascal-case to snake-case scan.
#[derive(PartialEq, Eq, Structural, Clone, Copy, Debug)]
pub enum CharType {
    DELIM,
    UPPER,
    LOWER,
    REGULAR,
}

/// Character class used by the normalizer: `_` is the delimiter, ASCII
/// letters split into upper and lower, everything else is regular.
pub open spec fn char_type(c: char) -> CharType {
    if c == '_' {
        CharType::DELIM
    } else if 'a' <= c && c <= 'z' {
        CharType::LOWER
    } else if 'A' <= c && c <= 'Z' {
        CharType::UPPER
    } else {
        CharType::REGULAR
    }
}

pub fn get_char_type(c: char) -> (t: CharType)
    ensures
        t == char_type(c),
{
    if c == '_' {
        CharType::DELIM
    } else if 'a' <= c && c <= 'z' {
        CharType::LOWER
    } else if 'A' <= c && c <= 'Z' {
        CharType::UPPER
    } else {
        CharType::REGULAR
    }
}

/// ASCII lowercasing of a single character; everything outside `A`..`Z`
/// is left unchanged.
pub open spec fn lower_char(c: char) -> char {
    if char_type(c) == CharType::UPPER {
        ((c as int) + 32) as char
    } else {
        c
    }
}

fn to_lower(c: char) -> (r: char)
    ensures
        r == lower_char(c),
{
    if 'A' <= c && c <= 'Z' {
        let u: u8 = c as u8;
        (u + 32) as char
    } else {
        c
    }
}

/// A word boundary falls before position `p` exactly when `s[p]` is an
/// uppercase letter that either follows a lowercase/regular character, or
/// ends an uppercase run of length at least two that is followed by a
/// lowercase letter (so `HTTPServer` becomes `http_server` and a single
/// leading capital is never split off alone).
pub open spec fn snake_boundary(s: Seq<char>, p: int) -> bool {
    &&& 1 <= p < s.len()
    &&& char_type(s[p]) == CharType::UPPER
    &&& {
        ||| char_type(s[p - 1]) == CharType::LOWER
        ||| char_type(s[p - 1]) == CharType::REGULAR
        ||| (char_type(s[p - 1]) == CharType::UPPER && p + 1 < s.len() && char_type(
            s[p + 1],
        ) == CharType::LOWER)
    }
}

/// What the normalizer emits for the character at position `p`: the
/// lowercased character, preceded by a separator when a word boundary falls
/// there.
pub open spec fn snake_emit(s: Seq<char>, p: int) -> Seq<char> {
    if snake_boundary(s, p) {
        seq!['_', lower_char(s[p])]
    } else {
        seq![lower_char(s[p])]
    }
}

/// The normalized form of the first `n` characters of `s`.
pub open spec fn snake_prefix(s: Seq<char>, n: int) -> Seq<char>
    decreases n,
{
    if n <= 0 {
        Seq::empty()
    } else {
        snake_prefix(s, n - 1) + snake_emit(s, n - 1)
    }
}

/// The snake-case normalization of `s`.
pub open spec fn snake_of(s: Seq<char>) -> Seq<char> {
    snake_prefix(s, s.len() as int)
}

pub fn snake_chars(v: &Vec<char>) -> (r: Vec<char>)
    ensures
        r@ == snake_of(v@),
{
    let n = v.len();
    let mut out: Vec<char> = Vec::new();
    let mut i: usize = 0;
    while i < n
        invariant
            i <= n,
            n == v@.len(),
            out@ == snake_prefix(v@, i as int),
        decreases n - i,
    {
        let curr = get_char_type(v[i]);
        let bound: bool = if i >= 1 && curr == CharType::UPPER {
            let prev = get_char_type(v[i - 1]);
            if prev == CharType::LOWER || prev == CharType::REGULAR {
                true
            } else if prev == CharType::UPPER && i + 1 < n {
                get_char_type(v[i + 1]) == CharType::LOWER
            } else {
                false
            }
        } else {
            false
        };
        proof {
            assert(bound == snake_boundary(v@, i as int));
        }
        if bound {
            out.push('_');
        }
        out.push(to_lower(v[i]));
        i = i + 1;
    }
    out
}

/// Collects the characters of a string slice into a vector.
pub fn str_chars(s: &str) -> (v: Vec<char>)
    ensures
        v@ == s@,
{
    let n = s.unicode_len();
    let mut v: Vec<char> = Vec::new();
    let mut i: usize = 0;
    while i < n
        invariant
            i <= n,
            n == s@.len(),
            v@ == s@.take(i as int),
        decreases n - i,
    {
        v.push(s.get_char(i));
        proof {
            assert(v@ =~= s@.take(i + 1));
        }
        i = i + 1;
    }
    proof {
        assert(s@.take(n as int) =~= s@);
    }
    v
}

/// Relies on String::push: appends one character at the end of the string.
#[verifier::external_body]
fn push_char(s: &mut String, c: char)
    ensures
        final(s)@ == old(s)@.push(c),
{
    s.push(c);
}

/// Collects a vector of characters back into an owned string.
pub fn chars_string(v: &Vec<char>) -> (s: String)
    ensures
        s@ == v@,
{
    let mut s = String::new();
    let mut i: usize = 0;
    while i < v.len()
        invariant
            i <= v@.len(),
            s@ == v@.take(i as int),
        decreases v@.len() - i,
    {
        push_char(&mut s, v[i]);
        proof {
            assert(s@ =~= v@.take(i + 1));
        }
        i = i + 1;
    }
    proof {
        assert(v@.take(v@.len() as int) =~= v@);
    }
    s
}

/// Converts a camel/Pascal-case identifier to the snake-case unit naming
/// convention: boundaries before uppercase letters that follow a
/// lowercase/regular character, and before the last letter of an uppercase
/// run that is followed by a lowercase letter; all letters lowercased,
/// existing delimiters kept.
pub fn camel_to_snake(string: &str) -> (r: String)
    ensures
        r@ == snake_of(string@),
{
    let chars = str_chars(string);
    let snaked = snake_chars(&chars);
    chars_string(&snaked)
}

proof fn lemma_lower_not_upper(c: char)
    ensures
        char_type(lower_char(c)) != CharType::UPPER,
{
    if char_type(c) == CharType::UPPER {
        assert('A' <= c && c <= 'Z');
        assert(lower_char(c) == ((c as int) + 32) as char);
        assert('a' <= lower_char(c) && lower_char(c) <= 'z');
    }
}

proof fn lemma_snake_prefix_no_upper(s: Seq<char>, n: int)
    requires
        0 <= n <= s.len(),
    ensures
        forall|k: int|
            0 <= k < snake_prefix(s, n).len() ==> char_type(
                #[trigger] snake_prefix(s, n)[k],
            ) != CharType::UPPER,
    decreases n,
{
    if n > 0 {
        lemma_snake_prefix_no_upper(s, n - 1);
        lemma_lower_not_upper(s[n - 1]);
    }
}

proof fn lemma_snake_prefix_id(s: Seq<char>, n: int)
    requires
        0 <= n <= s.len(),
        forall|k: int| 0 <= k < s.len() ==> char_type(#[trigger] s[k]) != CharType::UPPER,
    ensures
        snake_prefix(s, n) == s.take(n),
    decreases n,
{
    if n <= 0 {
        assert(snake_prefix(s, n) =~= s.take(n));
    } else {
        lemma_snake_prefix_id(s, n - 1);
        assert(!snake_boundary(s, n - 1));
        assert(lower_char(s[n - 1]) == s[n - 1]);
        assert(snake_prefix(s, n) =~= s.take(n));
    }
}

/// Law: the normalizer is idempotent — normalizing a string a second time
/// changes nothing, on every input.
pub proof fn lemma_camel_to_snake_idempotent(s: Seq<char>)
    ensures
        snake_of(snake_of(s)) == snake_of(s),
{
    let t = snake_of(s);
    lemma_snake_prefix_no_upper(s, s.len() as int);
    lemma_snake_prefix_id(t, t.len() as int);
    assert(t.take(t.len() as int) =~= t);
}

/// True when `x` is a suffix of `s`.
pub open spec fn has_suffix(s: Seq<char>, x: Seq<char>) -> bool {
    x.len() <= s.len() && s.subrange(s.len() - x.len(), s.len() as int) == x
}

/// Removes every trailing repetition of the non-empty suffix `x` from `s`.
pub open spec fn chop_all(s: Seq<char>, x: Seq<char>) -> Seq<char>
    decreases s.len(),
{
    if x.len() > 0 && has_suffix(s, x) {
        chop_all(s.take(s.len() - x.len()), x)
    } else {
        s
    }
}

pub open spec fn sfx_test_cpp() -> Seq<char> {
    seq!['t', 'e', 's', 't', '.', 'c', 'p', 'p']
}

pub open spec fn sfx_test_cc() -> Seq<char> {
    seq!['t', 'e', 's', 't', '.', 'c', 'c']
}

pub open spec fn sfx_cpp() -> Seq<char> {
    seq!['.', 'c', 'p', 'p']
}

pub open spec fn sfx_cc() -> Seq<char> {
    seq!['.', 'c', 'c']
}

pub open spec fn sfx_inl_h() -> Seq<char> {
    seq!['-', 'i', 'n', 'l', '.', 'h']
}

pub open spec fn sfx_h() -> Seq<char> {
    seq!['.', 'h']
}

/// The unit base name and role of a file name: role suffixes are tried in a
/// fixed priority order, more specific before less specific, and the base
/// name (suffix stripped) is normalized to snake case. A name matching no
/// role suffix is unknown and kept as it is.
pub open spec fn classify_spec(s: Seq<char>) -> (Seq<char>, FileType) {
    if has_suffix(s, sfx_test_cpp()) {
        (snake_of(chop_all(s, sfx_test_cpp())), FileType::TEST)
    } else if has_suffix(s, sfx_test_cc()) {
        (snake_of(chop_all(s, sfx_test_cc())), FileType::TEST)
    } else if has_suffix(s, sfx_cpp()) {
        (snake_of(chop_all(s, sfx_cpp())), FileType::SOURCE)
    } else if has_suffix(s, sfx_cc()) {
        (snake_of(chop_all(s, sfx_cc())), FileType::SOURCE)
    } else if has_suffix(s, sfx_inl_h()) {
        (snake_of(chop_all(s, sfx_inl_h())), FileType::TEMPLATE)
    } else if has_suffix(s, sfx_h()) {
        (snake_of(chop_all(s, sfx_h())), FileType::HEADER)
    } else {
        (s, FileType::UNKNOWN)
    }
}

fn ends_with_chars(v: &Vec<char>, x: &Vec<char>) -> (b: bool)
    ensures
        b == has_suffix(v@, x@),
{
    let n = v.len();
    let m = x.len();
    if m > n {
        return false;
    }
    let mut i: usize = 0;
    while i < m
        invariant
            i <= m,
            m <= n,
            n == v@.len(),
            m == x@.len(),
            forall|k: int| 0 <= k < i ==> v@[n - m + k] == x@[k],
        decreases m - i,
    {
        if v[n - m + i] != x[i] {
            assert(v@.subrange(n - m, n as int)[i as int] != x@[i as int]);
            return false;
        }
        i = i + 1;
    }
    proof {
        assert(v@.subrange(n - m, n as int) =~= x@);
    }
    true
}

pub fn chop_suffix_all(v: &mut Vec<char>, x: &Vec<char>)
    requires
        x@.len() > 0,
    ensures
        final(v)@ == chop_all(old(v)@, x@),
{
    loop
        invariant
            x@.len() > 0,
            chop_all(v@, x@) == chop_all(old(v)@, x@),
        decreases v@.len(),
    {
        if !ends_with_chars(v, x) {
            return ;
        }
        let new_len = v.len() - x.len();
        v.truncate(new_len);
    }
}

/// Splits a file name into its normalized unit base name and its role,
/// per the fixed suffix priority order (test sources first, then plain
/// sources, then template headers, then plain headers).
pub fn strip_file_name(file_name: &str) -> (r: (String, FileType))
    ensures
        r.0@ == classify_spec(file_name@).0,
        r.1 == classify_spec(file_name@).1,
{
    let chars = str_chars(file_name);
    let sfx_list: [(Vec<char>, FileType); 6] = [
        (vec!['t', 'e', 's', 't', '.', 'c', 'p', 'p'], FileType::TEST),
        (vec!['t', 'e', 's', 't', '.', 'c', 'c'], FileType::TEST),
        (vec!['.', 'c', 'p', 'p'], FileType::SOURCE),
        (vec!['.', 'c', 'c'], FileType::SOURCE),
        (vec!['-', 'i', 'n', 'l', '.', 'h'], FileType::TEMPLATE),
        (vec!['.', 'h'], FileType::HEADER),
    ];
    proof {
        assert(sfx_list@[0].0@ =~= sfx_test_cpp());
        assert(sfx_list@[1].0@ =~= sfx_test_cc());
        assert(sfx_list@[2].0@ =~= sfx_cpp());
        assert(sfx_list@[3].0@ =~= sfx_cc());
        assert(sfx_list@[4].0@ =~= sfx_inl_h());
        assert(sfx_list@[5].0@ =~= sfx_h());
    }
    let mut i: usize = 0;
    while i < 6
        invariant
            i <= 6,
            chars@ == file_name@,
            sfx_list@[0].0@ == sfx_test_cpp() && sfx_list@[0].1 == FileType::TEST,
            sfx_list@[1].0@ == sfx_test_cc() && sfx_list@[1].1 == FileType::TEST,
            sfx_list@[2].0@ == sfx_cpp() && sfx_list@[2].1 == FileType::SOURCE,
            sfx_list@[3].0@ == sfx_cc() && sfx_list@[3].1 == FileType::SOURCE,
            sfx_list@[4].0@ == sfx_inl_h() && sfx_list@[4].1 == FileType::TEMPLATE,
            sfx_list@[5].0@ == sfx_h() && sfx_list@[5].1 == FileType::HEADER,
            i >= 1 ==> !has_suffix(file_name@, sfx_test_cpp()),
            i >= 2 ==> !has_suffix(file_name@, sfx_test_cc()),
            i >= 3 ==> !has_suffix(file_name@, sfx_cpp()),
            i >= 4 ==> !has_suffix(file_name@, sfx_cc()),
            i >= 5 ==> !has_suffix(file_name@, sfx_inl_h()),
            i >= 6 ==> !has_suffix(file_name@, sfx_h()),
        decreases 6 - i,
    {
        let (sfx, ft) = &sfx_list[i];
        if ends_with_chars(&chars, sfx) {
            let mut base = chars;
            chop_suffix_all(&mut base, sfx);
            let snaked = snake_chars(&base);
            return (chars_string(&snaked), *ft);
        }
        i = i + 1;
    }
    (chars_string(&chars), FileType::UNKNOWN)
}

} // verus!
