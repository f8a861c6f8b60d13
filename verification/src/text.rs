//! Character-level helpers shared by the parser, the code generator and the
//! compiler, each with its contract.
use vstd::prelude::*;

verus! {

/// `std`'s `str == str`: true exactly when both hold the same characters.
#[verifier::external_body]
pub(crate) fn str_eq(a: &str, b: &str) -> (r: bool)
    ensures
        r == (a@ == b@),
{
    a == b
}

/// `std`'s `String::push`: appends one character.
#[verifier::external_body]
pub(crate) fn push_char(s: &mut String, c: char)
    ensures
        final(s)@ == old(s)@.push(c),
{
    s.push(c)
}

/// The characters of a string slice, in order (`std`'s `str::chars`).
#[verifier::external_body]
pub(crate) fn chars_of(s: &str) -> (r: Vec<char>)
    ensures
        r@ == s@,
{
    s.chars().collect()
}

/// The Unicode `White_Space` property: tab, line feed, vertical tab, form
/// feed, carriage return, space, next line, no-break space, ogham space
/// mark, the spaces from en quad to hair space, line and paragraph
/// separators, narrow no-break space, medium mathematical space and
/// ideographic space.
pub open spec fn unicode_white_space(c: char) -> bool {
    let n = c as u32;
    ||| 0x09 <= n <= 0x0D
    ||| n == 0x20
    ||| n == 0x85
    ||| n == 0xA0
    ||| n == 0x1680
    ||| 0x2000 <= n <= 0x200A
    ||| n == 0x2028
    ||| n == 0x2029
    ||| n == 0x202F
    ||| n == 0x205F
    ||| n == 0x3000
}

/// Whether `c` has the Unicode `White_Space` property, as `std`'s
/// `char::is_whitespace` decides it.
pub(crate) fn is_whitespace(c: char) -> (r: bool)
    ensures
        r == unicode_white_space(c),
{
    let n = c as u32;
    (0x09 <= n && n <= 0x0D) || n == 0x20 || n == 0x85 || n == 0xA0 || n == 0x1680 || (0x2000 <= n && n <= 0x200A)
        || n == 0x2028 || n == 0x2029 || n == 0x202F || n == 0x205F || n == 0x3000
}

/// The text that `std`'s `{:?}` formatting gives a string: the string in
/// double quotes with its special characters escaped.
pub uninterp spec fn debug_quoted(s: Seq<char>) -> Seq<char>;

/// `std`'s `Debug` formatting of a `str`; the escaping rules are not restated
/// here, only that the result is a function of the characters.
#[verifier::external_body]
pub(crate) fn debug_quote(s: &str) -> (r: String)
    ensures
        r@ == debug_quoted(s@),
{
    format!("{:?}", s)
}

/// Concatenation is associative; stated so that right-nested sums are
/// rewritten into the left-nested form that appending produces.
pub broadcast proof fn lemma_add_assoc<A>(a: Seq<A>, b: Seq<A>, c: Seq<A>)
    ensures
        #[trigger] (a + (b + c)) == (a + b) + c,
{
    assert(a + (b + c) =~= (a + b) + c);
}

// ---------------------------------------------------------------------------
// Decimal text of numbers
// ---------------------------------------------------------------------------

pub open spec fn digit_char(d: nat) -> char
    recommends
        d < 10,
{
    if d == 0 {
        '0'
    } else if d == 1 {
        '1'
    } else if d == 2 {
        '2'
    } else if d == 3 {
        '3'
    } else if d == 4 {
        '4'
    } else if d == 5 {
        '5'
    } else if d == 6 {
        '6'
    } else if d == 7 {
        '7'
    } else if d == 8 {
        '8'
    } else {
        '9'
    }
}

/// The decimal digits of a natural number, without leading zeros.
pub open spec fn nat_decimal(n: nat) -> Seq<char>
    decreases n,
{
    if n < 10 {
        seq![digit_char(n)]
    } else {
        nat_decimal(n / 10).push(digit_char(n % 10))
    }
}

fn digit(d: u64) -> (c: char)
    requires
        d < 10,
    ensures
        c == digit_char(d as nat),
{
    if d == 0 {
        '0'
    } else if d == 1 {
        '1'
    } else if d == 2 {
        '2'
    } else if d == 3 {
        '3'
    } else if d == 4 {
        '4'
    } else if d == 5 {
        '5'
    } else if d == 6 {
        '6'
    } else if d == 7 {
        '7'
    } else if d == 8 {
        '8'
    } else {
        '9'
    }
}

/// The decimal text of `n`.
pub fn u64_decimal(n: u64) -> (r: String)
    ensures
        r@ == nat_decimal(n as nat),
    decreases n,
{
    if n < 10 {
        let mut s = String::new();
        push_char(&mut s, digit(n));
        assert(s@ =~= nat_decimal(n as nat));
        s
    } else {
        let mut s = u64_decimal(n / 10);
        push_char(&mut s, digit(n % 10));
        s
    }
}

/// Drops leading `'0'`s, keeping at least one character.
pub open spec fn strip_leading_zeros(s: Seq<char>) -> Seq<char>
    decreases s.len(),
{
    if s.len() > 1 && s[0] == '0' {
        strip_leading_zeros(s.subrange(1, s.len() as int))
    } else {
        s
    }
}

/// Drops trailing `'0'`s.
pub open spec fn strip_trailing_zeros(s: Seq<char>) -> Seq<char>
    decreases s.len(),
{
    if s.len() > 0 && s[s.len() - 1] == '0' {
        strip_trailing_zeros(s.subrange(0, s.len() - 1))
    } else {
        s
    }
}

/// The index of the first `c` in `s`, or `s.len()` when there is none.
pub open spec fn find_char(s: Seq<char>, c: char) -> nat
    decreases s.len(),
{
    if s.len() == 0 {
        0
    } else if s[0] == c {
        0
    } else {
        1 + find_char(s.subrange(1, s.len() as int), c)
    }
}

/// A number without its sign, in its shortest decimal form: no leading zeros
/// in the integer part, no trailing zeros in the fractional part, and no
/// point when the fractional part is empty.
pub open spec fn canonical_unsigned(s: Seq<char>) -> Seq<char> {
    let p = find_char(s, '.');
    let int_part = strip_leading_zeros(s.subrange(0, p as int));
    if p >= s.len() {
        int_part
    } else {
        let frac = strip_trailing_zeros(s.subrange(p + 1 as int, s.len() as int));
        if frac.len() == 0 {
            int_part
        } else {
            int_part + seq!['.'] + frac
        }
    }
}

/// The shortest decimal form of a number literal, as the number is displayed.
pub open spec fn canonical_number(s: Seq<char>) -> Seq<char> {
    if s.len() > 0 && s[0] == '-' {
        seq!['-'] + canonical_unsigned(s.subrange(1, s.len() as int))
    } else {
        canonical_unsigned(s)
    }
}

proof fn lemma_find_char_bound(s: Seq<char>, c: char)
    ensures
        find_char(s, c) <= s.len(),
        find_char(s, c) < s.len() ==> s[find_char(s, c) as int] == c,
        forall|i: int| 0 <= i < find_char(s, c) ==> s[i] != c,
    decreases s.len(),
{
    if s.len() > 0 && s[0] != c {
        let t = s.subrange(1, s.len() as int);
        lemma_find_char_bound(t, c);
        assert forall|i: int| 0 <= i < find_char(s, c) implies s[i] != c by {
            if i > 0 {
                assert(s[i] == t[i - 1]);
            }
        }
    }
}

fn find_point(s: &Vec<char>, from: usize) -> (p: usize)
    requires
        from <= s.len(),
    ensures
        p as nat == from + find_char(s@.subrange(from as int, s.len() as int), '.'),
    decreases s.len() - from,
{
    if from == s.len() {
        proof { p_empty(s@, from as int); }
        from
    } else if s[from] == '.' {
        from
    } else {
        let r = find_point(s, from + 1);
        assert(s@.subrange(from as int, s.len() as int).subrange(1, (s.len() - from) as int)
            =~= s@.subrange(from + 1, s.len() as int));
        r
    }
}

proof fn p_empty(s: Seq<char>, from: int)
    requires
        from == s.len(),
    ensures
        find_char(s.subrange(from, s.len() as int), '.') == 0,
{
}

/// The integer part `s[lo..hi]` without leading zeros (keeping at least one
/// character); returns the index where it starts.
fn skip_leading_zeros(s: &Vec<char>, lo: usize, hi: usize) -> (r: usize)
    requires
        lo <= hi <= s.len(),
    ensures
        lo <= r <= hi,
        s@.subrange(r as int, hi as int) == strip_leading_zeros(s@.subrange(lo as int, hi as int)),
    decreases hi - lo,
{
    if hi - lo > 1 && s[lo] == '0' {
        let r = skip_leading_zeros(s, lo + 1, hi);
        assert(s@.subrange(lo as int, hi as int).subrange(1, (hi - lo) as int) =~= s@.subrange(
            lo + 1,
            hi as int,
        ));
        r
    } else {
        lo
    }
}

fn skip_trailing_zeros(s: &Vec<char>, lo: usize, hi: usize) -> (r: usize)
    requires
        lo <= hi <= s.len(),
    ensures
        lo <= r <= hi,
        s@.subrange(lo as int, r as int) == strip_trailing_zeros(s@.subrange(lo as int, hi as int)),
    decreases hi - lo,
{
    if hi > lo && s[hi - 1] == '0' {
        let r = skip_trailing_zeros(s, lo, hi - 1);
        assert(s@.subrange(lo as int, hi as int).subrange(0, (hi - 1 - lo) as int)
            =~= s@.subrange(lo as int, hi - 1));
        r
    } else {
        hi
    }
}

fn push_range(out: &mut String, s: &Vec<char>, lo: usize, hi: usize)
    requires
        lo <= hi <= s.len(),
    ensures
        final(out)@ == old(out)@ + s@.subrange(lo as int, hi as int),
{
    let mut i = lo;
    while i < hi
        invariant
            lo <= i <= hi <= s.len(),
            out@ == old(out)@ + s@.subrange(lo as int, i as int),
        decreases hi - i,
    {
        push_char(out, s[i]);
        assert(s@.subrange(lo as int, i + 1) =~= s@.subrange(lo as int, i as int).push(s[i as int]));
        i += 1;
    }
}

/// The text with which a number literal is displayed: its shortest decimal
/// form (see `canonical_number`).
pub fn number_display(text: &str) -> (r: String)
    ensures
        r@ == canonical_number(text@),
{
    let s = chars_of(text);
    let mut out = String::new();
    let start: usize = if s.len() > 0 && s[0] == '-' {
        push_char(&mut out, '-');
        1
    } else {
        0
    };
    let p = find_point(&s, start);
    let ghost u = s@.subrange(start as int, s.len() as int);
    proof {
        lemma_find_char_bound(u, '.');
    }
    let ip = skip_leading_zeros(&s, start, p);
    assert(u.subrange(0, (p - start) as int) =~= s@.subrange(start as int, p as int));
    push_range(&mut out, &s, ip, p);
    if p < s.len() {
        let fe = skip_trailing_zeros(&s, p + 1, s.len());
        assert(u.subrange((p - start) + 1, u.len() as int) =~= s@.subrange(p + 1, s.len() as int));
        if fe > p + 1 {
            push_char(&mut out, '.');
            push_range(&mut out, &s, p + 1, fe);
        }
    }
    proof {
        if start == 1 {
            assert(out@ =~= seq!['-'] + canonical_unsigned(u));
        } else {
            assert(u =~= s@);
            assert(out@ =~= canonical_unsigned(u));
        }
    }
    out
}

} // verus!
