use vstd::prelude::*;
use vstd::string::StrSliceExecFns;

verus! {

// ---------------------------------------------------------------------------
// Character classes of the `.env` grammar.
// ---------------------------------------------------------------------------

/// Horizontal whitespace: the blanks that may separate tokens within a line.
pub open spec fn is_ht(c: char) -> bool {
    c == ' ' || c == '\t'
}

/// Whitespace skipped between statements, newlines included.
pub open spec fn is_ws(c: char) -> bool {
    c == ' ' || c == '\t' || c == '\n' || c == '\r' || c == '\u{b}' || c == '\u{c}'
}

/// An ASCII letter, the only character allowed to start a variable name.
pub open spec fn is_letter(c: char) -> bool {
    ('a' as u32 <= c as u32 && c as u32 <= 'z' as u32) || ('A' as u32 <= c as u32 && c as u32
        <= 'Z' as u32)
}

/// A character allowed after the first one in a variable name.
pub open spec fn is_name_char(c: char) -> bool {
    is_letter(c) || ('0' as u32 <= c as u32 && c as u32 <= '9' as u32) || c == '_'
}

pub fn ht_char(c: char) -> (r: bool)
    ensures
        r == is_ht(c),
{
    c == ' ' || c == '\t'
}

pub fn ws_char(c: char) -> (r: bool)
    ensures
        r == is_ws(c),
{
    c == ' ' || c == '\t' || c == '\n' || c == '\r' || c == '\u{b}' || c == '\u{c}'
}

pub fn letter_char(c: char) -> (r: bool)
    ensures
        r == is_letter(c),
{
    let u = c as u32;
    ('a' as u32 <= u && u <= 'z' as u32) || ('A' as u32 <= u && u <= 'Z' as u32)
}

pub fn name_char(c: char) -> (r: bool)
    ensures
        r == is_name_char(c),
{
    let u = c as u32;
    letter_char(c) || ('0' as u32 <= u && u <= '9' as u32) || c == '_'
}

// ---------------------------------------------------------------------------
// Line numbers.
// ---------------------------------------------------------------------------

/// Number of newline characters in `s`.
pub open spec fn nl_count(s: Seq<char>) -> int
    decreases s.len(),
{
    if s.len() == 0 {
        0
    } else {
        nl_count(s.drop_last()) + if s.last() == '\n' {
            1int
        } else {
            0int
        }
    }
}

/// The 1-based line number of position `i` in `s`: one more than the number
/// of newlines before it.
pub open spec fn line_of(s: Seq<char>, i: int) -> int {
    1 + nl_count(s.subrange(0, i))
}

/// Computes the 1-based line number of position `i`.
pub fn line_at(s: &Vec<char>, i: usize) -> (r: usize)
    requires
        i <= s@.len(),
        s@.len() < usize::MAX,
    ensures
        r == line_of(s@, i as int),
{
    let mut n: usize = 0;
    let mut j: usize = 0;
    while j < i
        invariant
            j <= i <= s@.len() < usize::MAX,
            n == nl_count(s@.subrange(0, j as int)),
            n <= j,
        decreases i - j,
    {
        proof {
            assert(s@.subrange(0, j + 1).drop_last() =~= s@.subrange(0, j as int));
            assert(s@.subrange(0, j + 1).last() == s@[j as int]);
        }
        if s[j] == '\n' {
            n = n + 1;
        }
        j = j + 1;
    }
    n + 1
}

// ---------------------------------------------------------------------------
// Decimal rendering.
// ---------------------------------------------------------------------------

/// The decimal digit `d` as a character.
pub open spec fn digit_char(d: int) -> char {
    if d == 0 {
        '0'
    } else if d == 1 {
        '1'
    } else if d == 2 {
        '2'
    } else if d == 3 {
        '3'
    } else if d == 4 {
        '4'
    } else if d == 5 {
        '5'
    } else if d == 6 {
        '6'
    } else if d == 7 {
        '7'
    } else if d == 8 {
        '8'
    } else {
        '9'
    }
}

/// The decimal notation of the non-negative number `n`, most significant
/// digit first, without leading zeroes (zero itself is one digit).
pub open spec fn decimal_of(n: int) -> Seq<char>
    decreases n,
{
    if n < 10 {
        seq![digit_char(n)]
    } else {
        decimal_of(n / 10) + seq![digit_char(n % 10)]
    }
}

fn digit_char_x(d: usize) -> (r: char)
    requires
        d < 10,
    ensures
        r == digit_char(d as int),
{
    if d == 0 {
        '0'
    } else if d == 1 {
        '1'
    } else if d == 2 {
        '2'
    } else if d == 3 {
        '3'
    } else if d == 4 {
        '4'
    } else if d == 5 {
        '5'
    } else if d == 6 {
        '6'
    } else if d == 7 {
        '7'
    } else if d == 8 {
        '8'
    } else {
        '9'
    }
}

/// Renders `n` in decimal notation.
pub fn decimal_string(n: usize) -> (r: String)
    ensures
        r@ == decimal_of(n as int),
{
    let mut digits: Vec<char> = Vec::new();
    let ghost mut tail: Seq<char> = Seq::empty();
    let mut m = n;
    proof {
        assert(decimal_of(n as int) + Seq::<char>::empty() =~= decimal_of(n as int));
    }
    loop
        invariant_except_break
            decimal_of(n as int) == decimal_of(m as int) + tail,
        invariant
            tail.len() == digits@.len(),
            forall|k: int| 0 <= k < tail.len() ==> tail[k] == digits@[tail.len() - 1 - k],
        ensures
            decimal_of(n as int) == tail,
            tail.len() == digits@.len(),
            forall|k: int| 0 <= k < tail.len() ==> tail[k] == digits@[tail.len() - 1 - k],
        decreases m,
    {
        let ghost m0 = m as int;
        let ghost tail0 = tail;
        let d = m % 10;
        let dc = digit_char_x(d);
        digits.push(dc);
        proof {
            tail = seq![digit_char(d as int)] + tail;
        }
        m = m / 10;
        if m == 0 {
            proof {
                assert(m0 < 10);
                assert(d as int == m0);
                assert(decimal_of(m0) == seq![digit_char(m0)]);
                assert(decimal_of(m0) + tail0 =~= tail);
            }
            break;
        }
        proof {
            assert(decimal_of(m0) == decimal_of(m0 / 10) + seq![digit_char(m0 % 10)]);
            assert((decimal_of(m0 / 10) + seq![digit_char(m0 % 10)]) + tail0 =~= decimal_of(
                m as int,
            ) + tail);
        }
    }
    let mut r = String::new();
    let mut i = digits.len();
    proof {
        assert(r@ =~= tail.subrange(0, digits@.len() - i));
    }
    while i > 0
        invariant
            i <= digits@.len(),
            decimal_of(n as int) == tail,
            tail.len() == digits@.len(),
            forall|k: int| 0 <= k < tail.len() ==> tail[k] == digits@[tail.len() - 1 - k],
            r@ == tail.subrange(0, digits@.len() - i),
        decreases i,
    {
        i = i - 1;
        push_char(&mut r, digits[i]);
        proof {
            assert(digits@[i as int] == tail[tail.len() - 1 - i]);
            assert(r@ =~= tail.subrange(0, digits@.len() - i));
        }
    }
    proof {
        assert(tail.subrange(0, tail.len() as int) =~= tail);
    }
    r
}

// ---------------------------------------------------------------------------
// Bridging between `str`/`String` and character vectors.
// ---------------------------------------------------------------------------

/// Collects the characters of a string slice into a vector.
pub fn to_chars(s: &str) -> (r: Vec<char>)
    ensures
        r@ == s@,
{
    let n = s.unicode_len();
    let mut r: Vec<char> = Vec::new();
    let mut i: usize = 0;
    while i < n
        invariant
            i <= n,
            n == s@.len(),
            r@ == s@.subrange(0, i as int),
        decreases n - i,
    {
        let c = s.get_char(i);
        r.push(c);
        i = i + 1;
        proof {
            assert(r@ =~= s@.subrange(0, i as int));
        }
    }
    proof {
        assert(r@ =~= s@);
    }
    r
}

/// Relies on `String::push`: appends the given character at the end of the
/// string, and nothing else.
#[verifier::external_body]
fn push_char(s: &mut String, c: char)
    ensures
        final(s)@ == old(s)@.push(c),
{
    s.push(c);
}

/// Builds a `String` out of a vector of characters.
pub fn chars_to_string(v: &Vec<char>) -> (r: String)
    ensures
        r@ == v@,
{
    let mut r = String::new();
    let mut i: usize = 0;
    while i < v.len()
        invariant
            i <= v@.len(),
            r@ == v@.subrange(0, i as int),
        decreases v@.len() - i,
    {
        push_char(&mut r, v[i]);
        i = i + 1;
        proof {
            assert(r@ =~= v@.subrange(0, i as int));
        }
    }
    proof {
        assert(r@ =~= v@);
    }
    r
}

/// Compares two character vectors for equality.
pub fn chars_eq(a: &Vec<char>, b: &Vec<char>) -> (r: bool)
    ensures
        r == (a@ == b@),
{
    if a.len() != b.len() {
        proof {
            assert(a@ != b@);
        }
        return false;
    }
    let mut i: usize = 0;
    while i < a.len()
        invariant
            i <= a@.len(),
            a@.len() == b@.len(),
            forall|k: int| 0 <= k < i ==> a@[k] == b@[k],
        decreases a@.len() - i,
    {
        if a[i] != b[i] {
            return false;
        }
        i = i + 1;
    }
    proof {
        assert(a@ =~= b@);
    }
    true
}

/// Copies the characters of `s` between positions `from` and `to`.
pub fn copy_range(s: &Vec<char>, from: usize, to: usize) -> (r: Vec<char>)
    requires
        from <= to <= s@.len(),
    ensures
        r@ == s@.subrange(from as int, to as int),
{
    let mut r: Vec<char> = Vec::new();
    let mut i: usize = from;
    while i < to
        invariant
            from <= i <= to <= s@.len(),
            r@ == s@.subrange(from as int, i as int),
        decreases to - i,
    {
        r.push(s[i]);
        i = i + 1;
        proof {
            assert(r@ =~= s@.subrange(from as int, i as int));
        }
    }
    r
}

} // verus!
