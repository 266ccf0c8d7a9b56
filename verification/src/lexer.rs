use crate::text::{
    copy_range, ht_char, is_ht, is_letter, is_name_char, is_ws, letter_char, line_at, line_of,
    name_char, ws_char,
};
use vstd::prelude::*;

verus! {

// ---------------------------------------------------------------------------
// The grammar, as functions over character sequences.
//
// A buffer holds statements of the shape `[export ]NAME=VALUE`, separated by
// newlines, with blank lines and `#` comments in between.  The functions
// below give each lexing step a mathematical meaning; the executable lexer
// is proved to compute exactly these.
// ---------------------------------------------------------------------------
/// Kind of grammar violation found while lexing.
#[derive(Clone, Copy, PartialEq, Eq, Structural)]
pub enum ErrKind {
    InvalidName,
    UnsetWithoutValue,
    MissingEquals,
    WhitespaceAfterName,
    WhitespaceBeforeValue,
    MissingQuote,
    WhitespaceInBareValue,
}

// ---------------------------------------------------------------------------
// Position scanners.
// ---------------------------------------------------------------------------
/// End of the run of whitespace starting at `i`.
pub open spec fn ws_end(s: Seq<char>, i: int) -> int
    decreases s.len() - i,
{
    if 0 <= i < s.len() && is_ws(s[i]) {
        ws_end(s, i + 1)
    } else {
        i
    }
}

/// End of the run of horizontal whitespace starting at `i`.
pub open spec fn ht_end(s: Seq<char>, i: int) -> int
    decreases s.len() - i,
{
    if 0 <= i < s.len() && is_ht(s[i]) {
        ht_end(s, i + 1)
    } else {
        i
    }
}

/// End of the run of name characters starting at `i`.
pub open spec fn name_end(s: Seq<char>, i: int) -> int
    decreases s.len() - i,
{
    if 0 <= i < s.len() && is_name_char(s[i]) {
        name_end(s, i + 1)
    } else {
        i
    }
}

/// Position of the first newline at or after `i`, or the buffer length.
pub open spec fn eol(s: Seq<char>, i: int) -> int
    decreases s.len() - i,
{
    if 0 <= i < s.len() && s[i] != '\n' {
        eol(s, i + 1)
    } else if 0 <= i < s.len() {
        i
    } else {
        s.len() as int
    }
}

/// Position of the first occurrence of `c` at or after `i`, or the buffer
/// length if there is none.
pub open spec fn find_char(s: Seq<char>, i: int, c: char) -> int
    decreases s.len() - i,
{
    if 0 <= i < s.len() {
        if s[i] == c {
            i
        } else {
            find_char(s, i + 1, c)
        }
    } else {
        s.len() as int
    }
}

/// Length of the run of backslashes that ends just before position `j`.
pub open spec fn bs_run(s: Seq<char>, j: int) -> int
    decreases j,
{
    if 0 < j <= s.len() && s[j - 1] == '\\' {
        1 + bs_run(s, j - 1)
    } else {
        0
    }
}

/// Whether the double quote at `j` closes its segment: a quote preceded by
/// an odd run of backslashes is escaped and stays part of the content.
pub open spec fn dq_close_at(s: Seq<char>, j: int) -> bool {
    s[j] == '"' && bs_run(s, j) % 2 == 0
}

/// Position of the first closing double quote at or after `i`, or the buffer
/// length if there is none.
pub open spec fn find_dq_close(s: Seq<char>, i: int) -> int
    decreases s.len() - i,
{
    if 0 <= i < s.len() {
        if dq_close_at(s, i) {
            i
        } else {
            find_dq_close(s, i + 1)
        }
    } else {
        s.len() as int
    }
}

pub proof fn lemma_ws_end(s: Seq<char>, i: int)
    requires
        0 <= i <= s.len(),
    ensures
        i <= ws_end(s, i) <= s.len(),
    decreases s.len() - i,
{
    if i < s.len() && is_ws(s[i]) {
        lemma_ws_end(s, i + 1);
    }
}

pub proof fn lemma_ht_end(s: Seq<char>, i: int)
    requires
        0 <= i <= s.len(),
    ensures
        i <= ht_end(s, i) <= s.len(),
    decreases s.len() - i,
{
    if i < s.len() && is_ht(s[i]) {
        lemma_ht_end(s, i + 1);
    }
}

pub proof fn lemma_name_end(s: Seq<char>, i: int)
    requires
        0 <= i <= s.len(),
    ensures
        i <= name_end(s, i) <= s.len(),
    decreases s.len() - i,
{
    if i < s.len() && is_name_char(s[i]) {
        lemma_name_end(s, i + 1);
    }
}

pub proof fn lemma_eol(s: Seq<char>, i: int)
    requires
        0 <= i <= s.len(),
    ensures
        i <= eol(s, i) <= s.len(),
    decreases s.len() - i,
{
    if i < s.len() && s[i] != '\n' {
        lemma_eol(s, i + 1);
    }
}

pub proof fn lemma_find_char(s: Seq<char>, i: int, c: char)
    requires
        0 <= i <= s.len(),
    ensures
        i <= find_char(s, i, c) <= s.len(),
    decreases s.len() - i,
{
    if i < s.len() && s[i] != c {
        lemma_find_char(s, i + 1, c);
    }
}

pub proof fn lemma_find_dq_close(s: Seq<char>, i: int)
    requires
        0 <= i <= s.len(),
    ensures
        i <= find_dq_close(s, i) <= s.len(),
    decreases s.len() - i,
{
    if i < s.len() && !dq_close_at(s, i) {
        lemma_find_dq_close(s, i + 1);
    }
}

// ---------------------------------------------------------------------------
// Skipping blank and comment lines.
// ---------------------------------------------------------------------------
/// Position of the next statement at or after `i`: repeatedly consumes runs
/// of whitespace and `#` comments running to the end of their line.
pub open spec fn skip_lines(s: Seq<char>, i: int) -> int
    decreases s.len() - i,
        via skip_lines_dec
{
    if 0 <= i <= s.len() {
        let j = ws_end(s, i);
        if j < s.len() && s[j] == '#' {
            skip_lines(s, eol(s, j))
        } else {
            j
        }
    } else {
        i
    }
}

#[via_fn]
proof fn skip_lines_dec(s: Seq<char>, i: int) {
    if 0 <= i <= s.len() {
        lemma_ws_end(s, i);
        let j = ws_end(s, i);
        if j < s.len() && s[j] == '#' {
            lemma_eol(s, j + 1);
            assert(eol(s, j) == eol(s, j + 1));
        }
    }
}

pub proof fn lemma_skip_lines(s: Seq<char>, i: int)
    requires
        0 <= i <= s.len(),
    ensures
        i <= skip_lines(s, i) <= s.len(),
    decreases s.len() - i,
{
    lemma_ws_end(s, i);
    let j = ws_end(s, i);
    if j < s.len() && s[j] == '#' {
        lemma_eol(s, j + 1);
        assert(eol(s, j) == eol(s, j + 1));
        lemma_skip_lines(s, eol(s, j));
    }
}

// ---------------------------------------------------------------------------
// Names.
// ---------------------------------------------------------------------------
/// Whether the word `export` followed by horizontal whitespace stands at `i`.
pub open spec fn has_export_prefix(s: Seq<char>, i: int) -> bool {
    &&& 0 <= i
    &&& i + 6 < s.len()
    &&& s[i] == 'e'
    &&& s[i + 1] == 'x'
    &&& s[i + 2] == 'p'
    &&& s[i + 3] == 'o'
    &&& s[i + 4] == 'r'
    &&& s[i + 5] == 't'
    &&& is_ht(s[i + 6])
}

/// Whether the statement at `i` carries an `export` prefix: the prefix must
/// stand there and a name must follow it, otherwise the word itself is read
/// as the variable name.
pub open spec fn nm_export(s: Seq<char>, i: int) -> bool {
    has_export_prefix(s, i) && {
        let w = ht_end(s, i + 6);
        w < s.len() && is_letter(s[w])
    }
}

/// Position where the variable name of the statement at `i` starts.
pub open spec fn nm_start(s: Seq<char>, i: int) -> int {
    if nm_export(s, i) {
        ht_end(s, i + 6)
    } else {
        i
    }
}

/// Whether a statement may be lexed at `i` at all.
pub open spec fn name_match_ok(s: Seq<char>, i: int) -> bool {
    nm_export(s, i) || (0 <= i < s.len() && is_letter(s[i]))
}

/// Position just after the variable name of the statement at `i`.
pub open spec fn nm_end(s: Seq<char>, i: int) -> int {
    name_end(s, nm_start(s, i))
}

/// The variable name of the statement at `i`.
pub open spec fn nm_name(s: Seq<char>, i: int) -> Seq<char> {
    s.subrange(nm_start(s, i), nm_end(s, i))
}

/// Lexing a name at `i`: on success, the name and the position just after
/// the `=` sign; otherwise the violation and its line.
pub open spec fn lex_name_spec(s: Seq<char>, i: int) -> Result<
    (Seq<char>, int),
    (ErrKind, int),
> {
    if !name_match_ok(s, i) {
        Err((ErrKind::InvalidName, line_of(s, i)))
    } else {
        let e = nm_end(s, i);
        if e >= s.len() || s[e] == '\n' || s[e] == '#' {
            if nm_export(s, i) {
                Err((ErrKind::UnsetWithoutValue, line_of(s, e)))
            } else {
                Err((ErrKind::MissingEquals, line_of(s, e)))
            }
        } else if is_ht(s[e]) {
            Err((ErrKind::WhitespaceAfterName, line_of(s, e)))
        } else if s[e] != '=' {
            Err((ErrKind::MissingEquals, line_of(s, e)))
        } else {
            Ok((nm_name(s, i), e + 1))
        }
    }
}

pub proof fn lemma_nm(s: Seq<char>, i: int)
    requires
        0 <= i < s.len(),
        name_match_ok(s, i),
    ensures
        i <= nm_start(s, i) < nm_end(s, i) <= s.len(),
        is_letter(s[nm_start(s, i)]),
{
    if nm_export(s, i) {
        lemma_ht_end(s, i + 6);
    }
    let st = nm_start(s, i);
    lemma_name_end(s, st + 1);
    assert(is_name_char(s[st]));
    assert(name_end(s, st) == name_end(s, st + 1));
}

// ---------------------------------------------------------------------------
// Values.
// ---------------------------------------------------------------------------
/// Replaces every non-overlapping occurrence of the two characters `a b`,
/// scanned left to right, by the single character `c`.
pub open spec fn replace2(t: Seq<char>, a: char, b: char, c: char) -> Seq<char>
    decreases t.len(),
{
    if t.len() >= 2 && t[0] == a && t[1] == b {
        seq![c] + replace2(t.skip(2), a, b, c)
    } else if t.len() >= 1 {
        seq![t[0]] + replace2(t.skip(1), a, b, c)
    } else {
        t
    }
}

/// The escape substitutions applied to the inside of a double-quoted
/// segment, in order: `\"`, `\r`, `\n`, and finally `\\`.
pub open spec fn dq_unescape(t: Seq<char>) -> Seq<char> {
    replace2(
        replace2(replace2(replace2(t, '\\', '"', '"'), '\\', 'r', '\r'), '\\', 'n', '\n'),
        '\\',
        '\\',
        '\\',
    )
}

/// The text with its trailing horizontal whitespace removed.
pub open spec fn trim_ht_end(t: Seq<char>) -> Seq<char>
    decreases t.len(),
{
    if t.len() > 0 && is_ht(t.last()) {
        trim_ht_end(t.drop_last())
    } else {
        t
    }
}

/// Whether the text contains horizontal whitespace anywhere.
pub open spec fn contains_ht(t: Seq<char>) -> bool {
    exists|k: int| 0 <= k < t.len() && is_ht(t[k])
}

/// Whether a bare segment stops at `i`, given the character before it.
pub open spec fn bare_stop(s: Seq<char>, i: int, prev: char) -> bool {
    s[i] == '\n' || s[i] == '\'' || s[i] == '"' || (is_ht(prev) && s[i] == '#')
}

/// Scanning a bare segment from `i`: the collected text and the position at
/// which the scan stops.  A backslash directly before a quote character is
/// dropped and the quote taken literally.
pub open spec fn bare_scan(s: Seq<char>, i: int, prev: char) -> (Seq<char>, int)
    decreases s.len() - i,
{
    if !(0 <= i < s.len()) {
        (Seq::<char>::empty(), i)
    } else if bare_stop(s, i, prev) {
        (Seq::<char>::empty(), i)
    } else if s[i] == '\\' && i + 1 < s.len() && (s[i + 1] == '"' || s[i + 1] == '\'') {
        let r = bare_scan(s, i + 2, s[i + 1]);
        (seq![s[i + 1]] + r.0, r.1)
    } else {
        let r = bare_scan(s, i + 1, s[i]);
        (seq![s[i]] + r.0, r.1)
    }
}

pub proof fn lemma_bare_scan(s: Seq<char>, i: int, prev: char)
    requires
        0 <= i <= s.len(),
    ensures
        i <= bare_scan(s, i, prev).1 <= s.len(),
    decreases s.len() - i,
{
    if 0 <= i < s.len() && !bare_stop(s, i, prev) {
        if s[i] == '\\' && i + 1 < s.len() && (s[i + 1] == '"' || s[i + 1] == '\'') {
            lemma_bare_scan(s, i + 2, s[i + 1]);
        } else {
            lemma_bare_scan(s, i + 1, s[i]);
        }
    }
}

/// The value collapsed out of one bare segment: trailing blanks trimmed,
/// then doubled backslashes collapsed.
pub open spec fn bare_value(t: Seq<char>) -> Seq<char> {
    replace2(trim_ht_end(t), '\\', '\\', '\\')
}

/// The segment loop: starting at `i` with the text gathered so far, scans
/// single-quoted, double-quoted and bare segments until the statement ends
/// at a newline, at the end of the buffer, or at a trailing comment.
pub open spec fn segs(s: Seq<char>, i: int, acc: Seq<char>) -> Result<
    (Seq<char>, int),
    (ErrKind, int),
>
    decreases s.len() - i,
        via segs_dec
{
    if !(2 <= i < s.len()) {
        Ok((acc, i))
    } else if s[i] == '\'' {
        let j = find_char(s, i + 1, '\'');
        if j >= s.len() {
            Err((ErrKind::MissingQuote, line_of(s, i)))
        } else {
            let acc2 = acc + s.subrange(i + 1, j);
            if j + 1 >= s.len() || s[j + 1] == '\n' {
                Ok((acc2, j + 1))
            } else {
                segs(s, j + 1, acc2)
            }
        }
    } else if s[i] == '"' {
        let j = find_dq_close(s, i + 1);
        if j >= s.len() {
            Err((ErrKind::MissingQuote, line_of(s, i)))
        } else {
            let acc2 = acc + dq_unescape(s.subrange(i + 1, j));
            if j + 1 >= s.len() || s[j + 1] == '\n' {
                Ok((acc2, j + 1))
            } else {
                segs(s, j + 1, acc2)
            }
        }
    } else {
        let r = bare_scan(s, i, s[i - 1]);
        let v = bare_value(r.0);
        if contains_ht(v) {
            Err((ErrKind::WhitespaceInBareValue, line_of(s, r.1)))
        } else {
            let acc2 = acc + v;
            if r.1 < s.len() && s[r.1] == '#' {
                Ok((acc2, r.1))
            } else if r.1 >= s.len() || s[r.1] == '\n' {
                Ok((acc2, r.1))
            } else {
                segs(s, r.1, acc2)
            }
        }
    }
}

#[via_fn]
proof fn segs_dec(s: Seq<char>, i: int, acc: Seq<char>) {
    if 2 <= i < s.len() {
        if s[i] == '\'' {
            lemma_find_char(s, i + 1, '\'');
        } else if s[i] == '"' {
            lemma_find_dq_close(s, i + 1);
        } else {
            lemma_bare_scan(s, i, s[i - 1]);
            if !bare_stop(s, i, s[i - 1]) {
                if s[i] == '\\' && i + 1 < s.len() && (s[i + 1] == '"' || s[i + 1] == '\'') {
                    lemma_bare_scan(s, i + 2, s[i + 1]);
                } else {
                    lemma_bare_scan(s, i + 1, s[i]);
                }
            }
        }
    }
}

pub proof fn lemma_segs(s: Seq<char>, i: int, acc: Seq<char>)
    requires
        0 <= i <= s.len(),
    ensures
        segs(s, i, acc) is Ok ==> i <= segs(s, i, acc)->Ok_0.1 <= s.len(),
    decreases s.len() - i,
{
    if 2 <= i < s.len() {
        if s[i] == '\'' {
            lemma_find_char(s, i + 1, '\'');
            let j = find_char(s, i + 1, '\'');
            if j < s.len() {
                let acc2 = acc + s.subrange(i + 1, j);
                if !(j + 1 >= s.len() || s[j + 1] == '\n') {
                    lemma_segs(s, j + 1, acc2);
                }
            }
        } else if s[i] == '"' {
            lemma_find_dq_close(s, i + 1);
            let j = find_dq_close(s, i + 1);
            if j < s.len() {
                let acc2 = acc + dq_unescape(s.subrange(i + 1, j));
                if !(j + 1 >= s.len() || s[j + 1] == '\n') {
                    lemma_segs(s, j + 1, acc2);
                }
            }
        } else {
            lemma_bare_scan(s, i, s[i - 1]);
            let r = bare_scan(s, i, s[i - 1]);
            if !contains_ht(bare_value(r.0)) {
                let acc2 = acc + bare_value(r.0);
                if !(r.1 < s.len() && s[r.1] == '#') && !(r.1 >= s.len() || s[r.1] == '\n') {
                    if !bare_stop(s, i, s[i - 1]) {
                        if s[i] == '\\' && i + 1 < s.len() && (s[i + 1] == '"' || s[i + 1]
                            == '\'') {
                            lemma_bare_scan(s, i + 2, s[i + 1]);
                        } else {
                            lemma_bare_scan(s, i + 1, s[i]);
                        }
                    }
                    lemma_segs(s, r.1, acc2);
                }
            }
        }
    }
}

/// Segments concatenate without inserting characters: whatever text the
/// segment loop has already gathered, the segments from `i` on contribute
/// exactly the text they would contribute to an empty accumulator, and they
/// succeed or fail the same way.
pub proof fn lemma_segs_concat(s: Seq<char>, i: int, acc: Seq<char>)
    ensures
        match segs(s, i, Seq::<char>::empty()) {
            Ok(r) => segs(s, i, acc) == Ok::<(Seq<char>, int), (ErrKind, int)>((acc + r.0, r.1)),
            Err(e) => segs(s, i, acc) == Err::<(Seq<char>, int), (ErrKind, int)>(e),
        },
    decreases s.len() - i,
{
    let empty = Seq::<char>::empty();
    if !(2 <= i < s.len()) {
        assert(acc + empty =~= acc);
    } else if s[i] == '\'' {
        lemma_find_char(s, i + 1, '\'');
        let j = find_char(s, i + 1, '\'');
        if j < s.len() {
            let c = s.subrange(i + 1, j);
            if j + 1 >= s.len() || s[j + 1] == '\n' {
                assert(acc + (empty + c) =~= acc + c);
            } else {
                lemma_segs_concat(s, j + 1, empty + c);
                lemma_segs_concat(s, j + 1, acc + c);
                match segs(s, j + 1, empty) {
                    Ok(r) => {
                        assert(acc + ((empty + c) + r.0) =~= (acc + c) + r.0);
                    },
                    Err(_) => {},
                }
            }
        }
    } else if s[i] == '"' {
        lemma_find_dq_close(s, i + 1);
        let j = find_dq_close(s, i + 1);
        if j < s.len() {
            let c = dq_unescape(s.subrange(i + 1, j));
            if j + 1 >= s.len() || s[j + 1] == '\n' {
                assert(acc + (empty + c) =~= acc + c);
            } else {
                lemma_segs_concat(s, j + 1, empty + c);
                lemma_segs_concat(s, j + 1, acc + c);
                match segs(s, j + 1, empty) {
                    Ok(r) => {
                        assert(acc + ((empty + c) + r.0) =~= (acc + c) + r.0);
                    },
                    Err(_) => {},
                }
            }
        }
    } else {
        lemma_bare_scan(s, i, s[i - 1]);
        let r = bare_scan(s, i, s[i - 1]);
        let c = bare_value(r.0);
        if !contains_ht(c) {
            if r.1 < s.len() && s[r.1] == '#' {
                assert(acc + (empty + c) =~= acc + c);
            } else if r.1 >= s.len() || s[r.1] == '\n' {
                assert(acc + (empty + c) =~= acc + c);
            } else {
                if !bare_stop(s, i, s[i - 1]) {
                    if s[i] == '\\' && i + 1 < s.len() && (s[i + 1] == '"' || s[i + 1] == '\'') {
                        lemma_bare_scan(s, i + 2, s[i + 1]);
                    } else {
                        lemma_bare_scan(s, i + 1, s[i]);
                    }
                }
                lemma_segs_concat(s, r.1, empty + c);
                lemma_segs_concat(s, r.1, acc + c);
                match segs(s, r.1, empty) {
                    Ok(rr) => {
                        assert(acc + ((empty + c) + rr.0) =~= (acc + c) + rr.0);
                    },
                    Err(_) => {},
                }
            }
        }
    }
}

/// Whether the rest of the line at `i` holds only horizontal whitespace,
/// optionally followed by a comment: the value is then empty.
pub open spec fn value_blank(s: Seq<char>, i: int) -> bool {
    let k = ht_end(s, i);
    k >= s.len() || s[k] == '\n' || s[k] == '#'
}

/// Lexing the value that starts at `i`, the position just after `=`: on
/// success, the value and the position of the next statement; otherwise the
/// violation and its line.
pub open spec fn lex_value_spec(s: Seq<char>, i: int) -> Result<
    (Seq<char>, int),
    (ErrKind, int),
> {
    if value_blank(s, i) {
        Ok((Seq::<char>::empty(), skip_lines(s, i)))
    } else if is_ht(s[i]) {
        Err((ErrKind::WhitespaceBeforeValue, line_of(s, i)))
    } else {
        match segs(s, i, Seq::<char>::empty()) {
            Ok(r) => Ok((r.0, skip_lines(s, r.1))),
            Err(e) => Err(e),
        }
    }
}

pub proof fn lemma_lex_value(s: Seq<char>, i: int)
    requires
        0 <= i <= s.len(),
    ensures
        lex_value_spec(s, i) is Ok ==> i <= lex_value_spec(s, i)->Ok_0.1 <= s.len(),
{
    if value_blank(s, i) {
        lemma_skip_lines(s, i);
    } else {
        lemma_segs(s, i, Seq::<char>::empty());
        if segs(s, i, Seq::<char>::empty()) is Ok {
            let r = segs(s, i, Seq::<char>::empty())->Ok_0;
            lemma_skip_lines(s, r.1);
        }
    }
}

// ---------------------------------------------------------------------------
// Statements.
// ---------------------------------------------------------------------------
/// The statements of the buffer from position `i` on, as name/value pairs in
/// file order; `i` must already stand at a statement.  A name at the very
/// end of the buffer, with nothing after its `=` or even without one being
/// reachable, is bound to the empty value.
pub open spec fn stmts(s: Seq<char>, i: int) -> Result<
    Seq<(Seq<char>, Seq<char>)>,
    (ErrKind, int),
>
    decreases s.len() - i,
        via stmts_dec
{
    if !(0 <= i < s.len()) {
        Ok(Seq::<(Seq<char>, Seq<char>)>::empty())
    } else {
        match lex_name_spec(s, i) {
            Err(e) => Err(e),
            Ok(n) => {
                if n.1 >= s.len() {
                    Ok(seq![(n.0, Seq::<char>::empty())])
                } else {
                    match lex_value_spec(s, n.1) {
                        Err(e) => Err(e),
                        Ok(v) => match stmts(s, v.1) {
                            Err(e) => Err(e),
                            Ok(rest) => Ok(seq![(n.0, v.0)] + rest),
                        },
                    }
                }
            },
        }
    }
}

#[via_fn]
proof fn stmts_dec(s: Seq<char>, i: int) {
    if 0 <= i < s.len() {
        if name_match_ok(s, i) {
            lemma_nm(s, i);
            let e = nm_end(s, i);
            if lex_name_spec(s, i) is Ok {
                let vp = e + 1;
                if vp < s.len() {
                    lemma_lex_value(s, vp);
                }
            }
        }
    }
}

/// The buffer with every `\r\n` pair collapsed to `\n`.
pub open spec fn normalize(s: Seq<char>) -> Seq<char> {
    replace2(s, '\r', '\n', '\n')
}

pub proof fn lemma_replace2_len(t: Seq<char>, a: char, b: char, c: char)
    ensures
        replace2(t, a, b, c).len() <= t.len(),
    decreases t.len(),
{
    if t.len() >= 2 && t[0] == a && t[1] == b {
        lemma_replace2_len(t.skip(2), a, b, c);
    } else if t.len() >= 1 {
        lemma_replace2_len(t.skip(1), a, b, c);
    }
}

/// The meaning of one whole buffer: its name/value pairs in file order, or
/// the first grammar violation.  The buffer is normalized, leading blank and
/// comment lines are skipped, and the statements are read off.
pub open spec fn parsed_pairs(data: Seq<char>) -> Result<
    Seq<(Seq<char>, Seq<char>)>,
    (ErrKind, int),
> {
    let s = normalize(data);
    stmts(s, skip_lines(s, 0))
}

/// The buffer with every newline written as a carriage return and newline
/// pair.
pub open spec fn crlf_of(s: Seq<char>) -> Seq<char>
    decreases s.len(),
{
    if s.len() == 0 {
        s
    } else if s[0] == '\n' {
        seq!['\r', '\n'] + crlf_of(s.skip(1))
    } else {
        seq![s[0]] + crlf_of(s.skip(1))
    }
}

proof fn lemma_replace2_absent(t: Seq<char>, a: char, b: char, c: char)
    requires
        forall|k: int| 0 <= k < t.len() ==> t[k] != a,
    ensures
        replace2(t, a, b, c) == t,
    decreases t.len(),
{
    if t.len() >= 1 {
        assert forall|k: int| 0 <= k < t.skip(1).len() implies t.skip(1)[k] != a by {
            assert(t.skip(1)[k] == t[k + 1]);
        }
        lemma_replace2_absent(t.skip(1), a, b, c);
        assert(seq![t[0]] + t.skip(1) =~= t);
    }
}

proof fn lemma_normalize_crlf(s: Seq<char>)
    requires
        forall|k: int| 0 <= k < s.len() ==> s[k] != '\r',
    ensures
        normalize(crlf_of(s)) == s,
    decreases s.len(),
{
    if s.len() > 0 {
        assert forall|k: int| 0 <= k < s.skip(1).len() implies s.skip(1)[k] != '\r' by {
            assert(s.skip(1)[k] == s[k + 1]);
        }
        lemma_normalize_crlf(s.skip(1));
        let t = crlf_of(s);
        if s[0] == '\n' {
            assert(t == seq!['\r', '\n'] + crlf_of(s.skip(1)));
            assert(t[0] == '\r' && t[1] == '\n');
            assert(t.skip(2) =~= crlf_of(s.skip(1)));
            assert(replace2(t, '\r', '\n', '\n') == seq!['\n'] + replace2(
                t.skip(2),
                '\r',
                '\n',
                '\n',
            ));
            assert(seq!['\n'] + s.skip(1) =~= s);
        } else {
            assert(t == seq![s[0]] + crlf_of(s.skip(1)));
            assert(t[0] == s[0] && s[0] != '\r');
            assert(t.skip(1) =~= crlf_of(s.skip(1)));
            assert(replace2(t, '\r', '\n', '\n') == seq![t[0]] + replace2(
                t.skip(1),
                '\r',
                '\n',
                '\n',
            ));
            assert(seq![s[0]] + s.skip(1) =~= s);
        }
    }
}

/// Line endings are interchangeable: a buffer free of carriage returns
/// parses exactly as its form with every newline written as a carriage
/// return and newline pair — same pairs, same violations, same line
/// numbers.
pub proof fn lemma_crlf_indifferent(s: Seq<char>)
    requires
        forall|k: int| 0 <= k < s.len() ==> s[k] != '\r',
    ensures
        parsed_pairs(crlf_of(s)) == parsed_pairs(s),
{
    lemma_normalize_crlf(s);
    lemma_replace2_absent(s, '\r', '\n', '\n');
}

// ---------------------------------------------------------------------------
// The executable lexer.
// ---------------------------------------------------------------------------
/// Advances past the run of whitespace starting at `i`.
pub fn ws_end_x(s: &Vec<char>, i: usize) -> (r: usize)
    requires
        i <= s@.len(),
    ensures
        r == ws_end(s@, i as int),
        i <= r <= s@.len(),
{
    let mut j = i;
    while j < s.len() && ws_char(s[j])
        invariant
            i <= j <= s@.len(),
            ws_end(s@, i as int) == ws_end(s@, j as int),
        decreases s@.len() - j,
    {
        j = j + 1;
    }
    j
}

/// Advances past the run of horizontal whitespace starting at `i`.
pub fn ht_end_x(s: &Vec<char>, i: usize) -> (r: usize)
    requires
        i <= s@.len(),
    ensures
        r == ht_end(s@, i as int),
        i <= r <= s@.len(),
{
    let mut j = i;
    while j < s.len() && ht_char(s[j])
        invariant
            i <= j <= s@.len(),
            ht_end(s@, i as int) == ht_end(s@, j as int),
        decreases s@.len() - j,
    {
        j = j + 1;
    }
    j
}

/// Advances past the run of name characters starting at `i`.
pub fn name_end_x(s: &Vec<char>, i: usize) -> (r: usize)
    requires
        i <= s@.len(),
    ensures
        r == name_end(s@, i as int),
        i <= r <= s@.len(),
{
    let mut j = i;
    while j < s.len() && name_char(s[j])
        invariant
            i <= j <= s@.len(),
            name_end(s@, i as int) == name_end(s@, j as int),
        decreases s@.len() - j,
    {
        j = j + 1;
    }
    j
}

/// Finds the first newline at or after `i`.
pub fn eol_x(s: &Vec<char>, i: usize) -> (r: usize)
    requires
        i <= s@.len(),
    ensures
        r == eol(s@, i as int),
        i <= r <= s@.len(),
{
    let mut j = i;
    while j < s.len()
        invariant
            i <= j <= s@.len(),
            eol(s@, i as int) == eol(s@, j as int),
        decreases s@.len() - j,
    {
        if s[j] == '\n' {
            return j;
        }
        j = j + 1;
    }
    j
}

/// Finds the first occurrence of `c` at or after `i`.
pub fn find_char_x(s: &Vec<char>, i: usize, c: char) -> (r: usize)
    requires
        i <= s@.len(),
    ensures
        r == find_char(s@, i as int, c),
        i <= r <= s@.len(),
{
    let mut j = i;
    while j < s.len()
        invariant
            i <= j <= s@.len(),
            find_char(s@, i as int, c) == find_char(s@, j as int, c),
        decreases s@.len() - j,
    {
        if s[j] == c {
            return j;
        }
        j = j + 1;
    }
    j
}

/// Counts the backslashes directly before position `j`.
pub fn bs_run_x(s: &Vec<char>, j: usize) -> (r: usize)
    requires
        j <= s@.len(),
    ensures
        r == bs_run(s@, j as int),
{
    let mut k = j;
    let mut count: usize = 0;
    while k > 0 && s[k - 1] == '\\'
        invariant
            k <= j <= s@.len(),
            count == j - k,
            bs_run(s@, j as int) == count + bs_run(s@, k as int),
        decreases k,
    {
        k = k - 1;
        count = count + 1;
    }
    count
}

/// Finds the first closing double quote at or after `i`.
pub fn find_dq_close_x(s: &Vec<char>, i: usize) -> (r: usize)
    requires
        i <= s@.len(),
    ensures
        r == find_dq_close(s@, i as int),
        i <= r <= s@.len(),
{
    let mut j = i;
    while j < s.len()
        invariant
            i <= j <= s@.len(),
            find_dq_close(s@, i as int) == find_dq_close(s@, j as int),
        decreases s@.len() - j,
    {
        if s[j] == '"' && bs_run_x(s, j) % 2 == 0 {
            return j;
        }
        j = j + 1;
    }
    j
}

/// Advances past blank lines and comment lines starting at `i`.
pub fn skip_lines_x(s: &Vec<char>, i: usize) -> (r: usize)
    requires
        i <= s@.len(),
    ensures
        r == skip_lines(s@, i as int),
        i <= r <= s@.len(),
{
    let mut p = i;
    loop
        invariant
            i <= p <= s@.len(),
            skip_lines(s@, i as int) == skip_lines(s@, p as int),
        decreases s@.len() - p,
    {
        let j = ws_end_x(s, p);
        if j < s.len() && s[j] == '#' {
            proof {
                assert(eol(s@, j as int) == eol(s@, j + 1));
                lemma_eol(s@, j + 1);
            }
            let e = eol_x(s, j);
            proof {
                assert(skip_lines(s@, p as int) == skip_lines(s@, e as int));
            }
            p = e;
        } else {
            proof {
                assert(skip_lines(s@, p as int) == j);
            }
            return j;
        }
    }
}

/// Replaces every `a b` pair by `c`, left to right.
pub fn replace2_x(t: &Vec<char>, a: char, b: char, c: char) -> (r: Vec<char>)
    ensures
        r@ == replace2(t@, a, b, c),
{
    let mut out: Vec<char> = Vec::new();
    let mut i: usize = 0;
    proof {
        assert(t@.skip(0) =~= t@);
        assert(Seq::<char>::empty() + t@ =~= t@);
    }
    while i < t.len()
        invariant
            i <= t@.len(),
            replace2(t@, a, b, c) == out@ + replace2(t@.skip(i as int), a, b, c),
        decreases t@.len() - i,
    {
        let ghost out0 = out@;
        let ghost ti = t@.skip(i as int);
        if i + 1 < t.len() && t[i] == a && t[i + 1] == b {
            out.push(c);
            proof {
                assert(ti[0] == t@[i as int] && ti[1] == t@[i as int + 1]);
                assert(replace2(ti, a, b, c) == seq![c] + replace2(ti.skip(2), a, b, c));
                assert(ti.skip(2) =~= t@.skip(i as int + 2));
                assert(out@ + replace2(t@.skip(i as int + 2), a, b, c) =~= out0 + replace2(
                    ti,
                    a,
                    b,
                    c,
                ));
            }
            i = i + 2;
        } else {
            out.push(t[i]);
            proof {
                assert(ti[0] == t@[i as int]);
                assert(replace2(ti, a, b, c) == seq![t@[i as int]] + replace2(
                    ti.skip(1),
                    a,
                    b,
                    c,
                ));
                assert(ti.skip(1) =~= t@.skip(i as int + 1));
                assert(out@ + replace2(t@.skip(i as int + 1), a, b, c) =~= out0 + replace2(
                    ti,
                    a,
                    b,
                    c,
                ));
            }
            i = i + 1;
        }
    }
    proof {
        assert(t@.skip(i as int) =~= Seq::<char>::empty());
        assert(out@ + Seq::<char>::empty() =~= out@);
    }
    out
}

/// The four escape substitutions of a double-quoted segment, in order.
pub fn dq_unescape_x(t: &Vec<char>) -> (r: Vec<char>)
    ensures
        r@ == dq_unescape(t@),
{
    let a = replace2_x(t, '\\', '"', '"');
    let b = replace2_x(&a, '\\', 'r', '\r');
    let c = replace2_x(&b, '\\', 'n', '\n');
    replace2_x(&c, '\\', '\\', '\\')
}

/// Drops trailing horizontal whitespace.
pub fn trim_ht_end_x(t: Vec<char>) -> (r: Vec<char>)
    ensures
        r@ == trim_ht_end(t@),
{
    let mut v = t;
    while v.len() > 0 && ht_char(v[v.len() - 1])
        invariant
            trim_ht_end(v@) == trim_ht_end(t@),
        decreases v@.len(),
    {
        let ghost v0 = v@;
        let _ = v.pop();
        proof {
            assert(v@ =~= v0.drop_last());
        }
    }
    v
}

/// Whether the text holds horizontal whitespace anywhere.
pub fn contains_ht_x(t: &Vec<char>) -> (r: bool)
    ensures
        r == contains_ht(t@),
{
    let mut i: usize = 0;
    while i < t.len()
        invariant
            i <= t@.len(),
            forall|k: int| 0 <= k < i ==> !is_ht(t@[k]),
        decreases t@.len() - i,
    {
        if ht_char(t[i]) {
            return true;
        }
        i = i + 1;
    }
    false
}

/// Scans a bare segment from `i`, returning the collected text and the
/// position at which the scan stopped.
pub fn bare_scan_x(s: &Vec<char>, i: usize, prev: char) -> (r: (Vec<char>, usize))
    requires
        i <= s@.len(),
    ensures
        r.0@ == bare_scan(s@, i as int, prev).0,
        r.1 == bare_scan(s@, i as int, prev).1,
        i <= r.1 <= s@.len(),
{
    let mut out: Vec<char> = Vec::new();
    let mut j = i;
    let mut p = prev;
    loop
        invariant
            i <= j <= s@.len(),
            bare_scan(s@, i as int, prev).0 == out@ + bare_scan(s@, j as int, p).0,
            bare_scan(s@, i as int, prev).1 == bare_scan(s@, j as int, p).1,
        decreases s@.len() - j,
    {
        if j == s.len() {
            proof {
                assert(bare_scan(s@, j as int, p).0 =~= Seq::<char>::empty());
                assert(out@ + Seq::<char>::empty() =~= out@);
            }
            return (out, j);
        }
        let cj = s[j];
        if cj == '\n' || cj == '\'' || cj == '"' || (ht_char(p) && cj == '#') {
            proof {
                assert(bare_scan(s@, j as int, p).0 =~= Seq::<char>::empty());
                assert(out@ + Seq::<char>::empty() =~= out@);
            }
            return (out, j);
        }
        let ghost out0 = out@;
        if cj == '\\' && j + 1 < s.len() && (s[j + 1] == '"' || s[j + 1] == '\'') {
            let q = s[j + 1];
            out.push(q);
            proof {
                assert(bare_scan(s@, j as int, p).0 == seq![q] + bare_scan(
                    s@,
                    j + 2,
                    q,
                ).0);
                assert(out@ + bare_scan(s@, j + 2, q).0 =~= out0 + bare_scan(s@, j as int, p).0);
            }
            p = q;
            j = j + 2;
        } else {
            out.push(cj);
            proof {
                assert(bare_scan(s@, j as int, p).0 == seq![cj] + bare_scan(
                    s@,
                    j + 1,
                    cj,
                ).0);
                assert(out@ + bare_scan(s@, j + 1, cj).0 =~= out0 + bare_scan(s@, j as int, p).0);
            }
            p = cj;
            j = j + 1;
        }
    }
}

/// Lexes the statement head at `i`: an optional `export` prefix and a
/// variable name, which must be followed directly by `=`.  Returns the name
/// and the position just after the `=`, or the violation and its line.
pub fn lex_name_x(s: &Vec<char>, i: usize) -> (r: Result<(Vec<char>, usize), (ErrKind, usize)>)
    requires
        i < s@.len(),
        s@.len() < usize::MAX,
    ensures
        match r {
            Ok(n) => lex_name_spec(s@, i as int) == Ok::<(Seq<char>, int), (ErrKind, int)>(
                (n.0@, n.1 as int),
            ) && i + 2 <= n.1 <= s@.len(),
            Err(e) => lex_name_spec(s@, i as int) == Err::<(Seq<char>, int), (ErrKind, int)>(
                (e.0, e.1 as int),
            ),
        },
{
    let mut exp = false;
    let mut start = i;
    if s.len() - i > 6 && s[i] == 'e' && s[i + 1] == 'x' && s[i + 2] == 'p' && s[i + 3] == 'o'
        && s[i + 4] == 'r' && s[i + 5] == 't' && ht_char(s[i + 6]) {
        let w = ht_end_x(s, i + 6);
        if w < s.len() && letter_char(s[w]) {
            exp = true;
            start = w;
        }
    }
    proof {
        assert(exp == nm_export(s@, i as int));
        assert(start == nm_start(s@, i as int));
    }
    if !exp && !letter_char(s[i]) {
        let ln = line_at(s, i);
        return Err((ErrKind::InvalidName, ln));
    }
    proof {
        assert(name_match_ok(s@, i as int));
        lemma_nm(s@, i as int);
    }
    let e = name_end_x(s, start);
    if e == s.len() || s[e] == '\n' || s[e] == '#' {
        let ln = line_at(s, e);
        if exp {
            return Err((ErrKind::UnsetWithoutValue, ln));
        }
        return Err((ErrKind::MissingEquals, ln));
    }
    if ht_char(s[e]) {
        let ln = line_at(s, e);
        return Err((ErrKind::WhitespaceAfterName, ln));
    }
    if s[e] != '=' {
        let ln = line_at(s, e);
        return Err((ErrKind::MissingEquals, ln));
    }
    let name = copy_range(s, start, e);
    Ok((name, e + 1))
}

/// Lexes the value that starts at `i`, just after `=`.  Returns the value
/// and the position of the next statement, or the violation and its line.
pub fn lex_value_x(s: &Vec<char>, i: usize) -> (r: Result<(Vec<char>, usize), (ErrKind, usize)>)
    requires
        2 <= i < s@.len(),
        s@.len() < usize::MAX,
    ensures
        match r {
            Ok(v) => lex_value_spec(s@, i as int) == Ok::<(Seq<char>, int), (ErrKind, int)>(
                (v.0@, v.1 as int),
            ) && i <= v.1 <= s@.len(),
            Err(e) => lex_value_spec(s@, i as int) == Err::<(Seq<char>, int), (ErrKind, int)>(
                (e.0, e.1 as int),
            ),
        },
{
    let k = ht_end_x(s, i);
    if k == s.len() || s[k] == '\n' || s[k] == '#' {
        let p = skip_lines_x(s, i);
        let empty: Vec<char> = Vec::new();
        return Ok((empty, p));
    }
    if ht_char(s[i]) {
        let ln = line_at(s, i);
        return Err((ErrKind::WhitespaceBeforeValue, ln));
    }
    let mut acc: Vec<char> = Vec::new();
    let mut p = i;
    proof {
        assert(acc@ =~= Seq::<char>::empty());
    }
    loop
        invariant
            2 <= i <= p < s@.len(),
            s@.len() < usize::MAX,
            s@[p as int] != '\n',
            segs(s@, i as int, Seq::<char>::empty()) == segs(s@, p as int, acc@),
            lex_value_spec(s@, i as int) == (match segs(s@, i as int, Seq::<char>::empty()) {
                Ok(r) => Ok::<(Seq<char>, int), (ErrKind, int)>((r.0, skip_lines(s@, r.1))),
                Err(e) => Err::<(Seq<char>, int), (ErrKind, int)>(e),
            }),
        decreases s@.len() - p,
    {
        let cp = s[p];
        if cp == '\'' {
            let j = find_char_x(s, p + 1, '\'');
            if j == s.len() {
                let ln = line_at(s, p);
                return Err((ErrKind::MissingQuote, ln));
            }
            let mut seg = copy_range(s, p + 1, j);
            let ghost acc0 = acc@;
            acc.append(&mut seg);
            proof {
                assert(acc@ == acc0 + s@.subrange(p + 1, j as int));
            }
            if j + 1 == s.len() || s[j + 1] == '\n' {
                proof {
                    assert(segs(s@, p as int, acc0) == Ok::<(Seq<char>, int), (ErrKind, int)>(
                        (acc@, j + 1),
                    ));
                }
                let np = skip_lines_x(s, j + 1);
                return Ok((acc, np));
            }
            p = j + 1;
        } else if cp == '"' {
            let j = find_dq_close_x(s, p + 1);
            if j == s.len() {
                let ln = line_at(s, p);
                return Err((ErrKind::MissingQuote, ln));
            }
            let raw = copy_range(s, p + 1, j);
            let mut seg = dq_unescape_x(&raw);
            let ghost acc0 = acc@;
            acc.append(&mut seg);
            proof {
                assert(acc@ == acc0 + dq_unescape(s@.subrange(p + 1, j as int)));
            }
            if j + 1 == s.len() || s[j + 1] == '\n' {
                proof {
                    assert(segs(s@, p as int, acc0) == Ok::<(Seq<char>, int), (ErrKind, int)>(
                        (acc@, j + 1),
                    ));
                }
                let np = skip_lines_x(s, j + 1);
                return Ok((acc, np));
            }
            p = j + 1;
        } else {
            let pr = s[p - 1];
            let scan = bare_scan_x(s, p, pr);
            let trimmed = trim_ht_end_x(scan.0);
            let bv = replace2_x(&trimmed, '\\', '\\', '\\');
            proof {
                assert(bv@ == bare_value(bare_scan(s@, p as int, pr).0));
            }
            if contains_ht_x(&bv) {
                let ln = line_at(s, scan.1);
                return Err((ErrKind::WhitespaceInBareValue, ln));
            }
            let mut seg = bv;
            let ghost acc0 = acc@;
            acc.append(&mut seg);
            if scan.1 < s.len() && s[scan.1] == '#' {
                proof {
                    assert(segs(s@, p as int, acc0) == Ok::<(Seq<char>, int), (ErrKind, int)>(
                        (acc@, scan.1 as int),
                    ));
                }
                let np = skip_lines_x(s, scan.1);
                return Ok((acc, np));
            }
            if scan.1 == s.len() || s[scan.1] == '\n' {
                proof {
                    assert(segs(s@, p as int, acc0) == Ok::<(Seq<char>, int), (ErrKind, int)>(
                        (acc@, scan.1 as int),
                    ));
                }
                let np = skip_lines_x(s, scan.1);
                return Ok((acc, np));
            }
            proof {
                assert(!bare_stop(s@, p as int, pr));
                if s@[p as int] == '\\' && p + 1 < s@.len() && (s@[p + 1] == '"' || s@[p + 1]
                    == '\'') {
                    lemma_bare_scan(s@, p + 2, s@[p + 1]);
                } else {
                    lemma_bare_scan(s@, p + 1, s@[p as int]);
                }
                assert(scan.1 > p);
            }
            p = scan.1;
        }
    }
}

} // verus!
