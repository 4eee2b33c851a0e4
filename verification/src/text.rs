//! Character-level helpers for the line parser: locating a separator,
//! trimming ASCII whitespace, ASCII lower-casing, and reading a hexadecimal
//! number, each specified over the `Seq<char>` view of the text.
use vstd::prelude::*;

verus! {

/// ASCII whitespace, the characters the database format uses around fields.
pub open spec fn is_space(c: char) -> bool {
    c == ' ' || c == '\t' || c == '\n' || c == '\r' || c == '\x0b' || c == '\x0c'
}

/// The text with leading whitespace removed.
pub open spec fn trim_start(s: Seq<char>) -> Seq<char>
    decreases s.len(),
{
    if s.len() > 0 && is_space(s[0]) {
        trim_start(s.drop_first())
    } else {
        s
    }
}

/// The text with trailing whitespace removed.
pub open spec fn trim_end(s: Seq<char>) -> Seq<char>
    decreases s.len(),
{
    if s.len() > 0 && is_space(s.last()) {
        trim_end(s.drop_last())
    } else {
        s
    }
}

/// The text with whitespace removed from both ends.
pub open spec fn trim_spec(s: Seq<char>) -> Seq<char> {
    trim_end(trim_start(s))
}

/// ASCII lower-casing of one character; anything but `A`..`Z` is unchanged.
pub open spec fn lower_char(c: char) -> char {
    if 65 <= c as u32 && c as u32 <= 90 {
        ((c as u32 + 32) as u32) as char
    } else {
        c
    }
}

/// ASCII lower-casing of a whole text.
pub open spec fn lower_seq(s: Seq<char>) -> Seq<char> {
    s.map_values(|c: char| lower_char(c))
}

/// Relies on `char::from_u32`: `Some` exactly on Unicode scalar values
/// (at most 0x10FFFF and not a surrogate), returning the character with
/// that code.
#[verifier::external_body]
pub(crate) fn char_from_u32(v: u32) -> (r: Option<char>)
    ensures
        r is Some <==> vstd::utf8::is_scalar(v),
        r is Some ==> r == Some((v as char)),
{
    char::from_u32(v)
}

/// Relies on `String::push`: appends the character at the end.
#[verifier::external_body]
pub(crate) fn push_char(s: &mut String, c: char)
    ensures
        final(s)@ == old(s)@.push(c),
{
    s.push(c);
}

/// The index of the first occurrence of `c` in `s`, if any.
pub(crate) fn find_char(s: &str, c: char) -> (r: Option<usize>)
    ensures
        match r {
            Some(i) => {
                &&& i < s@.len()
                &&& s@[i as int] == c
                &&& forall|j: int| 0 <= j < i ==> s@[j] != c
            },
            None => forall|j: int| 0 <= j < s@.len() ==> s@[j] != c,
        },
{
    let n = s.unicode_len();
    let mut i: usize = 0;
    while i < n
        invariant
            n == s@.len(),
            i <= n,
            forall|j: int| 0 <= j < i ==> s@[j] != c,
        decreases n - i,
    {
        if s.get_char(i) == c {
            return Some(i);
        }
        i = i + 1;
    }
    None
}

/// Whether `c` is ASCII whitespace.
pub(crate) fn is_space_char(c: char) -> (r: bool)
    ensures
        r == is_space(c),
{
    c == ' ' || c == '\t' || c == '\n' || c == '\r' || c == '\x0b' || c == '\x0c'
}

/// The first index whose character is not whitespace, or the length.
fn scan_spaces_forward(s: &str) -> (a: usize)
    ensures
        a <= s@.len(),
        forall|j: int| 0 <= j < a ==> is_space(s@[j]),
        a < s@.len() ==> !is_space(s@[a as int]),
{
    let n = s.unicode_len();
    let mut a: usize = 0;
    while a < n
        invariant
            n == s@.len(),
            a <= n,
            forall|j: int| 0 <= j < a ==> is_space(s@[j]),
        decreases n - a,
    {
        if !is_space_char(s.get_char(a)) {
            return a;
        }
        a = a + 1;
    }
    a
}

/// One past the last non-whitespace index at or after `a`, or `a` itself.
fn scan_spaces_backward(s: &str, a: usize) -> (b: usize)
    requires
        a <= s@.len(),
    ensures
        a <= b <= s@.len(),
        forall|j: int| b <= j < s@.len() ==> is_space(s@[j]),
        b > a ==> !is_space(s@[b - 1]),
{
    let n = s.unicode_len();
    let mut b: usize = n;
    while b > a
        invariant
            n == s@.len(),
            a <= b <= n,
            forall|j: int| b <= j < n ==> is_space(s@[j]),
        decreases b,
    {
        if !is_space_char(s.get_char(b - 1)) {
            return b;
        }
        b = b - 1;
    }
    b
}

proof fn lemma_trim_start_skip(s: Seq<char>, a: int)
    requires
        0 <= a <= s.len(),
        forall|j: int| 0 <= j < a ==> is_space(s[j]),
    ensures
        trim_start(s) == trim_start(s.skip(a)),
    decreases a,
{
    if a > 0 {
        assert(is_space(s[0]));
        assert(s.drop_first() =~= s.skip(1));
        lemma_trim_start_skip(s.skip(1), a - 1);
        assert(s.skip(1).skip(a - 1) =~= s.skip(a));
    } else {
        assert(s.skip(0) =~= s);
    }
}

proof fn lemma_trim_end_take(s: Seq<char>, b: int)
    requires
        0 <= b <= s.len(),
        forall|j: int| b <= j < s.len() ==> is_space(s[j]),
    ensures
        trim_end(s) == trim_end(s.take(b)),
    decreases s.len() - b,
{
    if b < s.len() {
        assert(is_space(s.last()));
        assert(s.drop_last() =~= s.take(s.len() - 1));
        lemma_trim_end_take(s.take(s.len() - 1), b);
        assert(s.take(s.len() - 1).take(b) =~= s.take(b));
    } else {
        assert(s.take(b) =~= s);
    }
}

/// The text between the first and last non-whitespace characters.
pub(crate) fn trim_str<'a>(s: &'a str) -> (r: &'a str)
    ensures
        r@ == trim_spec(s@),
{
    let a = scan_spaces_forward(s);
    let b = scan_spaces_backward(s, a);
    proof {
        let t = s@.skip(a as int);
        lemma_trim_start_skip(s@, a as int);
        if a < s@.len() {
            assert(t[0] == s@[a as int]);
        }
        assert(trim_start(t) == t);
        lemma_trim_end_take(t, b - a);
        let u = t.take(b - a);
        if b > a {
            assert(u.last() == s@[b - 1]);
        }
        assert(trim_end(u) == u);
        assert(u =~= s@.subrange(a as int, b as int));
    }
    s.substring_char(a, b)
}

/// The text lower-cased, ASCII letter by ASCII letter.
pub(crate) fn to_lower(s: &str) -> (r: String)
    ensures
        r@ == lower_seq(s@),
{
    let n = s.unicode_len();
    let mut r = String::new();
    let mut i: usize = 0;
    while i < n
        invariant
            n == s@.len(),
            i <= n,
            r@ == lower_seq(s@.take(i as int)),
        decreases n - i,
    {
        let c = s.get_char(i);
        let u: u32 = c as u32;
        let lc: char = if 65 <= u && u <= 90 {
            let v: u32 = u + 32;
            match char_from_u32(v) {
                Some(c2) => c2,
                None => c,
            }
        } else {
            c
        };
        assert(lc == lower_char(c));
        push_char(&mut r, lc);
        proof {
            assert(lower_seq(s@.take(i + 1)) =~= lower_seq(s@.take(i as int)).push(
                lower_char(s@[i as int]),
            ));
        }
        i = i + 1;
    }
    proof {
        assert(s@.take(n as int) =~= s@);
    }
    r
}

/// `index_of_first` answers `Some(i)` exactly for the index that carries `c`
/// after positions free of it.
pub proof fn lemma_index_of_first_is(s: Seq<char>, c: char, i: int)
    requires
        0 <= i < s.len(),
        s[i] == c,
        forall|j: int| 0 <= j < i ==> s[j] != c,
    ensures
        s.index_of_first(c) == Some(i),
{
    s.index_of_first_ensures(c);
    assert(s.contains(c));
    let k = s.index_of_first(c).unwrap();
    if k < i {
        assert(s[k] != c);
    }
    if k > i {
        assert(s[i] != c);
    }
}

/// `index_of_first` answers `None` exactly when no position carries `c`.
pub proof fn lemma_index_of_first_absent(s: Seq<char>, c: char)
    requires
        forall|j: int| 0 <= j < s.len() ==> s[j] != c,
    ensures
        s.index_of_first(c) is None,
{
    s.index_of_first_ensures(c);
    if s.index_of_first(c) is Some {
        let k = s.index_of_first(c).unwrap();
        assert(s[k] != c);
    }
}

/// One base-16 digit, in either letter case.
pub open spec fn is_hex_digit(c: char) -> bool {
    (48 <= c as u32 && c as u32 <= 57) || (65 <= c as u32 && c as u32 <= 70) || (97 <= c as u32
        && c as u32 <= 102)
}

/// The value of one base-16 digit.
pub open spec fn hex_digit_value(c: char) -> u32
    recommends
        is_hex_digit(c),
{
    if 48 <= c as u32 && c as u32 <= 57 {
        (c as u32 - 48) as u32
    } else if 65 <= c as u32 && c as u32 <= 70 {
        (c as u32 - 55) as u32
    } else {
        (c as u32 - 87) as u32
    }
}

/// The number written by a string of base-16 digits, most significant first.
pub open spec fn hex_value(s: Seq<char>) -> nat
    decreases s.len(),
{
    if s.len() == 0 {
        0
    } else {
        (hex_value(s.drop_last()) * 16 + hex_digit_value(s.last())) as nat
    }
}

/// The digit part of a code field: `u32::from_str_radix` allows one leading
/// `+` sign before the digits, so the field may carry one.
pub open spec fn hex_digits_of(s: Seq<char>) -> Seq<char> {
    if s.len() > 0 && s[0] == '+' {
        s.drop_first()
    } else {
        s
    }
}

/// Whether the (already trimmed) code field reads as a base-16 `u32`: an
/// optional `+`, then at least one digit, and a value that fits in 32 bits.
pub open spec fn hex_field_ok(s: Seq<char>) -> bool {
    let d = hex_digits_of(s);
    &&& d.len() > 0
    &&& (forall|j: int| 0 <= j < d.len() ==> is_hex_digit(d[j]))
    &&& hex_value(d) <= u32::MAX
}

/// The number the code field writes.
pub open spec fn hex_field_value(s: Seq<char>) -> u32 {
    hex_value(hex_digits_of(s)) as u32
}

proof fn lemma_hex_value_step(s: Seq<char>, a: int, k: int)
    requires
        0 <= a <= k < s.len(),
    ensures
        hex_value(s.subrange(a, k + 1)) == hex_value(s.subrange(a, k)) * 16 + hex_digit_value(
            s[k],
        ),
{
    assert(s.subrange(a, k + 1).drop_last() =~= s.subrange(a, k));
    assert(s.subrange(a, k + 1).last() == s[k]);
}

proof fn lemma_hex_value_mono(s: Seq<char>, a: int, k: int, m: int)
    requires
        0 <= a <= k <= m <= s.len(),
    ensures
        hex_value(s.subrange(a, m)) >= hex_value(s.subrange(a, k)),
    decreases m - k,
{
    if k < m {
        lemma_hex_value_mono(s, a, k, m - 1);
        lemma_hex_value_step(s, a, m - 1);
    }
}

/// Reads the whole of `s` as a base-16 `u32`, as `u32::from_str_radix` with
/// radix 16 would: `None` on an empty digit string, a character that is no
/// hex digit, or a value over `u32::MAX`.
pub(crate) fn parse_hex_u32(s: &str) -> (r: Option<u32>)
    ensures
        r is Some <==> hex_field_ok(s@),
        r is Some ==> r.unwrap() == hex_field_value(s@),
{
    let n = s.unicode_len();
    let mut start: usize = 0;
    if n > 0 && s.get_char(0) == '+' {
        start = 1;
        proof {
            assert(hex_digits_of(s@) =~= s@.skip(1));
        }
    } else {
        proof {
            assert(hex_digits_of(s@) =~= s@.skip(0));
        }
    }
    let ghost d = s@.skip(start as int);
    if start == n {
        proof {
            assert(d.len() == 0);
        }
        return None;
    }
    let mut acc: u32 = 0;
    let mut k: usize = start;
    while k < n
        invariant
            n == s@.len(),
            start <= k <= n,
            d == s@.skip(start as int),
            d == hex_digits_of(s@),
            forall|j: int| start <= j < k ==> is_hex_digit(s@[j]),
            acc == hex_value(s@.subrange(start as int, k as int)),
        decreases n - k,
    {
        let c = s.get_char(k);
        let u: u32 = c as u32;
        let dv: u32;
        if 48 <= u && u <= 57 {
            dv = u - 48;
        } else if 65 <= u && u <= 70 {
            dv = u - 55;
        } else if 97 <= u && u <= 102 {
            dv = u - 87;
        } else {
            proof {
                assert(d[k - start] == s@[k as int]);
                assert(!is_hex_digit(d[k - start]));
            }
            return None;
        }
        if acc > 0x0FFF_FFFF {
            proof {
                lemma_hex_value_step(s@, start as int, k as int);
                lemma_hex_value_mono(s@, start as int, k + 1, n as int);
                assert(s@.subrange(start as int, n as int) =~= d);
                assert(hex_value(d) > u32::MAX);
            }
            return None;
        }
        proof {
            lemma_hex_value_step(s@, start as int, k as int);
            assert(dv == hex_digit_value(s@[k as int]));
        }
        acc = acc * 16 + dv;
        k = k + 1;
    }
    proof {
        assert(s@.subrange(start as int, n as int) =~= d);
        assert(forall|j: int| 0 <= j < d.len() ==> d[j] == s@[start + j]);
    }
    Some(acc)
}

} // verus!
