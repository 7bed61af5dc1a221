use vstd::prelude::*;

use crate::token::{Lexeme, Token};
use crate::value::bytes_copy;

verus! {

/// Why the scanner stopped.
#[derive(Debug, Clone, Copy, PartialEq, Eq, Structural)]
pub enum ScanError {
    /// A byte that starts no token.
    InvalidChar(u8),
    /// A string literal that meets a newline or the end of input before its
    /// closing quote.
    UnfinishedString,
    /// A numeric literal with a `.` that is not a valid float.
    InvalidFloat,
    /// A numeric literal without a `.` that is not a valid `i64`.
    InvalidInteger,
}

/// The byte at `i`, or the end-of-input sentinel `0` past the end.
pub open spec fn byte_at(s: Seq<u8>, i: int) -> u8 {
    if 0 <= i < s.len() {
        s[i]
    } else {
        0
    }
}

pub open spec fn is_space(c: u8) -> bool {
    c == (' ' as u8) || c == ('\r' as u8) || c == ('\n' as u8) || c == ('\t' as u8)
}

pub open spec fn is_digit(c: u8) -> bool {
    ('0' as u8) <= c <= ('9' as u8)
}

pub open spec fn is_alpha(c: u8) -> bool {
    (('a' as u8) <= c <= ('z' as u8)) || (('A' as u8) <= c <= ('Z' as u8))
}

pub open spec fn is_name_byte(c: u8) -> bool {
    is_alpha(c) || is_digit(c) || c == ('_' as u8)
}

/// The bytes that a numeric literal runs over, whether or not they group
/// into a valid number.
pub open spec fn is_number_byte(c: u8) -> bool {
    is_digit(c) || c == ('.' as u8) || c == ('x' as u8) || c == ('e' as u8) || c == ('b' as u8)
}

/// Where scanning lands after skipping whitespace and `--` line comments
/// from `i`. A comment ends after a newline; a `0` byte ends the input,
/// comment or not.
pub open spec fn skip(s: Seq<u8>, i: int, in_comment: bool) -> int
    decreases s.len() - i,
{
    if i < 0 || i >= s.len() {
        i
    } else if in_comment {
        if s[i] == ('\n' as u8) {
            skip(s, i + 1, false)
        } else if s[i] == 0 {
            i
        } else {
            skip(s, i + 1, true)
        }
    } else if is_space(s[i]) {
        skip(s, i + 1, false)
    } else if s[i] == ('-' as u8) && byte_at(s, i + 1) == ('-' as u8) {
        skip(s, i + 2, true)
    } else {
        i
    }
}

/// The first index from `k` on where a run of name bytes ends.
pub open spec fn name_end(s: Seq<u8>, k: int) -> int
    decreases s.len() - k,
{
    if k < 0 || k >= s.len() || !is_name_byte(s[k]) {
        k
    } else {
        name_end(s, k + 1)
    }
}

/// The first index from `k` on where a run of number bytes ends.
pub open spec fn number_end(s: Seq<u8>, k: int) -> int
    decreases s.len() - k,
{
    if k < 0 || k >= s.len() || !is_number_byte(s[k]) {
        k
    } else {
        number_end(s, k + 1)
    }
}

/// The index of the quote that closes a string whose body starts at
/// `start`, searching from `k`; `None` when a newline or the end of input
/// comes first. A quote right after a backslash does not close.
pub open spec fn string_close(s: Seq<u8>, quote: u8, start: int, k: int) -> Option<int>
    decreases s.len() - k,
{
    let c = byte_at(s, k);
    if k < 0 || k >= s.len() || c == ('\n' as u8) || c == 0 {
        None
    } else if c == quote && !(k > start && s[k - 1] == ('\\' as u8)) {
        Some(k)
    } else {
        string_close(s, quote, start, k + 1)
    }
}

pub open spec fn keyword_of(t: Seq<u8>) -> Option<Lexeme> {
    if t == seq![('a' as u8), ('n' as u8), ('d' as u8)] {
        Some(Lexeme::And)
    } else if t == seq![('b' as u8), ('r' as u8), ('e' as u8), ('a' as u8), ('k' as u8)] {
        Some(Lexeme::Break)
    } else if t == seq![('d' as u8), ('o' as u8)] {
        Some(Lexeme::Do)
    } else if t == seq![('e' as u8), ('l' as u8), ('s' as u8), ('e' as u8)] {
        Some(Lexeme::Else)
    } else if t == seq![('e' as u8), ('l' as u8), ('s' as u8), ('e' as u8), ('i' as u8), ('f' as u8)] {
        Some(Lexeme::ElseIf)
    } else if t == seq![('e' as u8), ('n' as u8), ('d' as u8)] {
        Some(Lexeme::End)
    } else if t == seq![('f' as u8), ('a' as u8), ('l' as u8), ('s' as u8), ('e' as u8)] {
        Some(Lexeme::False)
    } else if t == seq![('f' as u8), ('o' as u8), ('r' as u8)] {
        Some(Lexeme::For)
    } else if t == seq![('f' as u8), ('u' as u8), ('n' as u8), ('c' as u8), ('t' as u8), ('i' as u8), ('o' as u8), ('n' as u8)] {
        Some(Lexeme::Function)
    } else if t == seq![('g' as u8), ('o' as u8), ('t' as u8), ('o' as u8)] {
        Some(Lexeme::Goto)
    } else if t == seq![('i' as u8), ('f' as u8)] {
        Some(Lexeme::If)
    } else if t == seq![('i' as u8), ('n' as u8)] {
        Some(Lexeme::In)
    } else if t == seq![('l' as u8), ('o' as u8), ('c' as u8), ('a' as u8), ('l' as u8)] {
        Some(Lexeme::Local)
    } else if t == seq![('n' as u8), ('i' as u8), ('l' as u8)] {
        Some(Lexeme::Nil)
    } else if t == seq![('n' as u8), ('o' as u8), ('t' as u8)] {
        Some(Lexeme::Not)
    } else if t == seq![('o' as u8), ('r' as u8)] {
        Some(Lexeme::Or)
    } else if t == seq![('r' as u8), ('e' as u8), ('p' as u8), ('e' as u8), ('a' as u8), ('t' as u8)] {
        Some(Lexeme::Repeat)
    } else if t == seq![('r' as u8), ('e' as u8), ('t' as u8), ('u' as u8), ('r' as u8), ('n' as u8)] {
        Some(Lexeme::Return)
    } else if t == seq![('t' as u8), ('h' as u8), ('e' as u8), ('n' as u8)] {
        Some(Lexeme::Then)
    } else if t == seq![('t' as u8), ('r' as u8), ('u' as u8), ('e' as u8)] {
        Some(Lexeme::True)
    } else if t == seq![('u' as u8), ('n' as u8), ('t' as u8), ('i' as u8), ('l' as u8)] {
        Some(Lexeme::Until)
    } else if t == seq![('w' as u8), ('h' as u8), ('i' as u8), ('l' as u8), ('e' as u8)] {
        Some(Lexeme::While)
    } else {
        None
    }
}


pub open spec fn is_digits(t: Seq<u8>) -> bool {
    forall|i: int| 0 <= i < t.len() ==> is_digit(#[trigger] t[i])
}

/// The first index from `i` on that holds `b`, or the length.
pub open spec fn find(t: Seq<u8>, b: u8, i: int) -> int
    decreases t.len() - i,
{
    if i < 0 || i >= t.len() {
        t.len() as int
    } else if t[i] == b {
        i
    } else {
        find(t, b, i + 1)
    }
}

/// The value of a sequence of decimal digits.
pub open spec fn decimal(t: Seq<u8>) -> int
    decreases t.len(),
{
    if t.len() == 0 {
        0
    } else {
        decimal(t.drop_last()) * 10 + (t.last() - ('0' as u8))
    }
}

/// Digits, a `.`, digits, with at least one digit in all.
pub open spec fn mantissa_ok(m: Seq<u8>) -> bool {
    let d = find(m, '.' as u8, 0);
    d < m.len() && m.len() >= 2 && is_digits(m.take(d)) && is_digits(m.skip(d + 1))
}

/// A float literal: a mantissa with a `.`, then optionally `e` and at least
/// one digit.
pub open spec fn float_syntax(t: Seq<u8>) -> bool {
    let k = find(t, 'e' as u8, 0);
    mantissa_ok(t.take(k)) && (k == t.len() || (k + 1 < t.len() && is_digits(t.skip(k + 1))))
}

/// What a numeric literal spanning `t` scans to.
pub open spec fn number_token(t: Seq<u8>) -> Result<Lexeme, ScanError> {
    if t.contains('.' as u8) {
        if float_syntax(t) {
            Ok(Lexeme::Float(t))
        } else {
            Err(ScanError::InvalidFloat)
        }
    } else if t.len() > 0 && is_digits(t) && decimal(t) <= i64::MAX {
        Ok(Lexeme::Integer(decimal(t) as i64))
    } else {
        Err(ScanError::InvalidInteger)
    }
}

/// The short form, or the long one when the next byte is `b`.
pub open spec fn pick(s: Seq<u8>, q: int, b: u8, long: Lexeme, short: Lexeme) -> (Result<Lexeme, ScanError>, int) {
    if byte_at(s, q) == b {
        (Ok(long), q + 1)
    } else {
        (Ok(short), q)
    }
}

/// The token that starts at `p` (past any blanks), and where scanning
/// resumes after it. The end of the bytes, or a `0` byte, is the end of
/// input: `EOF`, with the cursor at the end, so that `EOF` repeats.
pub open spec fn scan_at(s: Seq<u8>, p: int) -> (Result<Lexeme, ScanError>, int) {
    let c = byte_at(s, p);
    let q = if 0 <= p < s.len() { p + 1 } else { p };
    if c == 0 {
        (Ok(Lexeme::EOF), s.len() as int)
    } else if c == ('"' as u8) || c == ('\'' as u8) {
        match string_close(s, c, q, q) {
            Some(k) => (Ok(Lexeme::String(s.subrange(q, k))), k + 1),
            None => (Err(ScanError::UnfinishedString), q),
        }
    } else if c == ('+' as u8) {
        (Ok(Lexeme::Add), q)
    } else if c == ('-' as u8) {
        (Ok(Lexeme::Sub), q)
    } else if c == ('*' as u8) {
        (Ok(Lexeme::Mul), q)
    } else if c == ('/' as u8) {
        pick(s, q, '/' as u8, Lexeme::Idiv, Lexeme::Div)
    } else if c == ('^' as u8) {
        (Ok(Lexeme::Pow), q)
    } else if c == ('#' as u8) {
        (Ok(Lexeme::Len), q)
    } else if c == ('&' as u8) {
        (Ok(Lexeme::BitAnd), q)
    } else if c == ('~' as u8) {
        pick(s, q, '=' as u8, Lexeme::NotEq, Lexeme::BitXor)
    } else if c == ('|' as u8) {
        (Ok(Lexeme::BitOr), q)
    } else if c == ('<' as u8) {
        if byte_at(s, q) == ('<' as u8) {
            (Ok(Lexeme::ShiftL), q + 1)
        } else {
            pick(s, q, '=' as u8, Lexeme::LesEq, Lexeme::Less)
        }
    } else if c == ('>' as u8) {
        if byte_at(s, q) == ('>' as u8) {
            (Ok(Lexeme::ShiftR), q + 1)
        } else {
            pick(s, q, '=' as u8, Lexeme::GreEq, Lexeme::Greater)
        }
    } else if c == ('=' as u8) {
        pick(s, q, '=' as u8, Lexeme::Equal, Lexeme::Assign)
    } else if c == ('(' as u8) {
        (Ok(Lexeme::ParL), q)
    } else if c == (')' as u8) {
        (Ok(Lexeme::ParR), q)
    } else if c == ('{' as u8) {
        (Ok(Lexeme::CurlyL), q)
    } else if c == ('}' as u8) {
        (Ok(Lexeme::CurlyR), q)
    } else if c == ('[' as u8) {
        (Ok(Lexeme::SqurL), q)
    } else if c == (']' as u8) {
        (Ok(Lexeme::SqurR), q)
    } else if c == (';' as u8) {
        (Ok(Lexeme::SemiColon), q)
    } else if c == (':' as u8) {
        pick(s, q, ':' as u8, Lexeme::DoubleColon, Lexeme::Colon)
    } else if c == (',' as u8) {
        (Ok(Lexeme::Comma), q)
    } else if c == ('.' as u8) && byte_at(s, q) == ('.' as u8) {
        pick(s, q + 1, '.' as u8, Lexeme::Dots, Lexeme::Concat)
    } else if c == ('.' as u8) && !is_digit(byte_at(s, q)) {
        (Ok(Lexeme::Dot), q)
    } else if c == ('.' as u8) || is_digit(c) {
        let e = number_end(s, q);
        (number_token(s.subrange(p, e)), e)
    } else if is_alpha(c) || c == ('_' as u8) {
        let e = name_end(s, q);
        let t = s.subrange(p, e);
        match keyword_of(t) {
            Some(k) => (Ok(k), e),
            None => (Ok(Lexeme::Name(t)), e),
        }
    } else {
        (Err(ScanError::InvalidChar(c)), q)
    }
}

/// The next token from position `i`, and where scanning resumes after it.
pub open spec fn scan(s: Seq<u8>, i: int) -> (Result<Lexeme, ScanError>, int) {
    scan_at(s, skip(s, i, false))
}


proof fn lemma_skip(s: Seq<u8>, i: int, in_comment: bool)
    ensures
        0 <= i <= s.len() ==> i <= skip(s, i, in_comment) <= s.len(),
        !(0 <= i <= s.len()) ==> skip(s, i, in_comment) == i,
    decreases s.len() - i,
{
    if 0 <= i < s.len() {
        if in_comment {
            if s[i] == ('\n' as u8) {
                lemma_skip(s, i + 1, false);
            } else if s[i] != 0 {
                lemma_skip(s, i + 1, true);
            }
        } else if is_space(s[i]) {
            lemma_skip(s, i + 1, false);
        } else if s[i] == ('-' as u8) && byte_at(s, i + 1) == ('-' as u8) {
            lemma_skip(s, i + 2, true);
        }
    }
}

proof fn lemma_runs(s: Seq<u8>, k: int)
    requires
        0 <= k <= s.len(),
    ensures
        k <= name_end(s, k) <= s.len(),
        k <= number_end(s, k) <= s.len(),
    decreases s.len() - k,
{
    if k < s.len() {
        lemma_runs(s, k + 1);
    }
}

proof fn lemma_string_close(s: Seq<u8>, quote: u8, start: int, k: int)
    ensures
        string_close(s, quote, start, k) matches Some(j) ==> k <= j < s.len(),
    decreases s.len() - k,
{
    if 0 <= k < s.len() {
        lemma_string_close(s, quote, start, k + 1);
    }
}

/// Where scanning from `i` leaves the cursor: `EOF` puts it at the end; any
/// other token comes from inside the input and moves it forward.
pub proof fn lemma_scan_pos(s: Seq<u8>, i: int)
    ensures
        scan(s, i).0 == Ok::<Lexeme, ScanError>(Lexeme::EOF) ==> scan(s, i).1 == s.len(),
        (scan(s, i).0 is Ok && scan(s, i).0->Ok_0 != Lexeme::EOF) ==> 0 <= i < scan(s, i).1 <= s.len(),
{
    lemma_skip(s, i, false);
    let p = skip(s, i, false);
    if 0 <= p < s.len() {
        lemma_runs(s, p + 1);
        lemma_string_close(s, s[p], p + 1, p + 1);
    }
}

/// Where `next` and `peak` go from a cursor and a looked-ahead token: the
/// token looked ahead is handed out; with none, the next one is scanned.
pub open spec fn fresh(ahead: Option<Lexeme>) -> bool {
    ahead is None
}

pub open spec fn next_spec(s: Seq<u8>, pos: int, ahead: Option<Lexeme>) -> (Result<Lexeme, ScanError>, int) {
    if fresh(ahead) {
        scan(s, pos)
    } else {
        (Ok(ahead->Some_0), pos)
    }
}

pub open spec fn token_view(t: Option<Token>) -> Option<Lexeme> {
    match t {
        Some(t) => Some(t@),
        None => None,
    }
}

proof fn lemma_find(t: Seq<u8>, b: u8, i: int)
    requires
        0 <= i <= t.len(),
    ensures
        i <= find(t, b, i) <= t.len(),
        find(t, b, i) < t.len() ==> t[find(t, b, i)] == b,
        forall|j: int| i <= j < find(t, b, i) ==> t[j] != b,
    decreases t.len() - i,
{
    if i < t.len() && t[i] != b {
        lemma_find(t, b, i + 1);
    }
}

proof fn lemma_decimal_prefix(t: Seq<u8>, j: int)
    requires
        is_digits(t),
        0 <= j <= t.len(),
    ensures
        0 <= decimal(t.take(j)) <= decimal(t),
    decreases t.len(),
{
    if t.len() > 0 {
        let u = t.drop_last();
        assert(is_digits(u)) by {
            assert forall|i: int| 0 <= i < u.len() implies is_digit(#[trigger] u[i]) by {
                assert(u[i] == t[i]);
            }
        }
        assert(is_digit(t[t.len() - 1]));
        if j == t.len() {
            lemma_decimal_prefix(u, 0);
            assert(t.take(j) =~= t);
        } else {
            lemma_decimal_prefix(u, j);
            assert(u.take(j) =~= t.take(j));
            lemma_decimal_prefix(u, u.len() as int);
            assert(u.take(u.len() as int) =~= u);
        }
    } else {
        assert(t.take(j) =~= t);
    }
}

fn digit(c: u8) -> (r: bool)
    ensures
        r == is_digit(c),
{
    '0' as u8 <= c && c <= '9' as u8
}

fn name_byte(c: u8) -> (r: bool)
    ensures
        r == is_name_byte(c),
{
    ('a' as u8 <= c && c <= 'z' as u8) || ('A' as u8 <= c && c <= 'Z' as u8) || digit(c) || c == '_' as u8
}

fn number_byte(c: u8) -> (r: bool)
    ensures
        r == is_number_byte(c),
{
    digit(c) || c == '.' as u8 || c == 'x' as u8 || c == 'e' as u8 || c == 'b' as u8
}

fn copy_range(s: &Vec<u8>, lo: usize, hi: usize) -> (r: Vec<u8>)
    requires
        lo <= hi <= s.len(),
    ensures
        r@ == s@.subrange(lo as int, hi as int),
{
    let mut r: Vec<u8> = Vec::new();
    let mut i: usize = lo;
    while i < hi
        invariant
            lo <= i <= hi <= s.len(),
            r@ == s@.subrange(lo as int, i as int),
        decreases hi - i,
    {
        r.push(s[i]);
        i += 1;
        assert(r@ =~= s@.subrange(lo as int, i as int));
    }
    r
}

fn find_byte(t: &Vec<u8>, b: u8) -> (r: usize)
    ensures
        r == find(t@, b, 0),
{
    let mut i: usize = 0;
    while i < t.len() && t[i] != b
        invariant
            i <= t.len(),
            find(t@, b, i as int) == find(t@, b, 0),
        decreases t.len() - i,
    {
        i += 1;
    }
    i
}

fn all_digits(t: &Vec<u8>, lo: usize, hi: usize) -> (r: bool)
    requires
        lo <= hi <= t.len(),
    ensures
        r == is_digits(t@.subrange(lo as int, hi as int)),
{
    let mut i: usize = lo;
    while i < hi
        invariant
            lo <= i <= hi <= t.len(),
            forall|j: int| lo <= j < i ==> is_digit(t@[j]),
        decreases hi - i,
    {
        if !digit(t[i]) {
            assert(!is_digit(t@.subrange(lo as int, hi as int)[i - lo]));
            return false;
        }
        i += 1;
    }
    assert forall|j: int| 0 <= j < hi - lo implies is_digit(#[trigger] t@.subrange(lo as int, hi as int)[j]) by {
        assert(is_digit(t@[lo + j]));
    }
    true
}

fn mantissa_valid(m: &Vec<u8>) -> (r: bool)
    ensures
        r == mantissa_ok(m@),
{
    let d = find_byte(m, '.' as u8);
    proof {
        lemma_find(m@, '.' as u8, 0);
    }
    if d < m.len() && m.len() >= 2 {
        assert(m@.take(d as int) =~= m@.subrange(0, d as int));
        assert(m@.skip(d + 1) =~= m@.subrange(d + 1, m@.len() as int));
        all_digits(m, 0, d) && all_digits(m, d + 1, m.len())
    } else {
        false
    }
}

fn float_valid(t: &Vec<u8>) -> (r: bool)
    ensures
        r == float_syntax(t@),
{
    let k = find_byte(t, 'e' as u8);
    proof {
        lemma_find(t@, 'e' as u8, 0);
    }
    let m = copy_range(t, 0, k);
    assert(m@ =~= t@.take(k as int));
    if !mantissa_valid(&m) {
        return false;
    }
    if k == t.len() {
        true
    } else if k + 1 < t.len() {
        assert(t@.skip(k + 1) =~= t@.subrange(k + 1, t@.len() as int));
        all_digits(t, k + 1, t.len())
    } else {
        false
    }
}

fn integer_value(t: &Vec<u8>) -> (r: Option<i64>)
    ensures
        r is Some <==> (t@.len() > 0 && is_digits(t@) && decimal(t@) <= i64::MAX),
        r is Some ==> r->Some_0 == decimal(t@),
{
    if t.len() == 0 || !all_digits(t, 0, t.len()) {
        assert(t@.subrange(0, t@.len() as int) =~= t@);
        return None;
    }
    assert(t@.subrange(0, t@.len() as int) =~= t@);
    let mut v: i64 = 0;
    let mut i: usize = 0;
    assert(t@.take(0) =~= Seq::<u8>::empty());
    while i < t.len()
        invariant
            i <= t.len(),
            is_digits(t@),
            0 <= v,
            v == decimal(t@.take(i as int)),
        decreases t.len() - i,
    {
        let d: i64 = (t[i] - '0' as u8) as i64;
        assert(is_digit(t@[i as int]));
        assert(t@.take(i + 1).drop_last() =~= t@.take(i as int));
        assert(decimal(t@.take(i + 1)) == v * 10 + d);
        if v > (i64::MAX - d) / 10 {
            assert(v * 10 + d > i64::MAX) by (nonlinear_arith)
                requires
                    v > (i64::MAX - d) / 10,
                    0 <= d <= 9,
            ;
            proof {
                lemma_decimal_prefix(t@, i + 1);
            }
            return None;
        }
        assert(0 <= v * 10 + d <= i64::MAX) by (nonlinear_arith)
            requires
                0 <= v <= (i64::MAX - d) / 10,
                0 <= d <= 9,
        ;
        v = v * 10 + d;
        i += 1;
    }
    assert(t@.take(i as int) =~= t@);
    Some(v)
}

fn number_value(t: Vec<u8>) -> (r: Result<Token, ScanError>)
    ensures
        match r {
            Ok(tok) => number_token(t@) == Ok::<Lexeme, ScanError>(tok@),
            Err(e) => number_token(t@) == Err::<Lexeme, ScanError>(e),
        },
{
    let d = find_byte(&t, '.' as u8);
    proof {
        lemma_find(t@, '.' as u8, 0);
    }
    if d < t.len() {
        if float_valid(&t) {
            Ok(Token::Float(t))
        } else {
            Err(ScanError::InvalidFloat)
        }
    } else {
        match integer_value(&t) {
            Some(v) => Ok(Token::Integer(v)),
            None => Err(ScanError::InvalidInteger),
        }
    }
}

fn word_is(t: &Vec<u8>, w: &[u8]) -> (r: bool)
    ensures
        r == (t@ == w@),
{
    if t.len() != w.len() {
        return false;
    }
    let mut i: usize = 0;
    while i < t.len()
        invariant
            i <= t.len() == w@.len(),
            forall|j: int| 0 <= j < i ==> t@[j] == w@[j],
        decreases t.len() - i,
    {
        if t[i] != w[i] {
            return false;
        }
        i += 1;
    }
    assert(t@ =~= w@);
    true
}

fn keyword(t: &Vec<u8>) -> (r: Option<Token>)
    ensures
        token_view(r) == keyword_of(t@),
{
    if word_is(t, &['a' as u8, 'n' as u8, 'd' as u8]) {
        return Some(Token::And);
    }
    if word_is(t, &['b' as u8, 'r' as u8, 'e' as u8, 'a' as u8, 'k' as u8]) {
        return Some(Token::Break);
    }
    if word_is(t, &['d' as u8, 'o' as u8]) {
        return Some(Token::Do);
    }
    if word_is(t, &['e' as u8, 'l' as u8, 's' as u8, 'e' as u8]) {
        return Some(Token::Else);
    }
    if word_is(t, &['e' as u8, 'l' as u8, 's' as u8, 'e' as u8, 'i' as u8, 'f' as u8]) {
        return Some(Token::ElseIf);
    }
    if word_is(t, &['e' as u8, 'n' as u8, 'd' as u8]) {
        return Some(Token::End);
    }
    if word_is(t, &['f' as u8, 'a' as u8, 'l' as u8, 's' as u8, 'e' as u8]) {
        return Some(Token::False);
    }
    if word_is(t, &['f' as u8, 'o' as u8, 'r' as u8]) {
        return Some(Token::For);
    }
    if word_is(t, &['f' as u8, 'u' as u8, 'n' as u8, 'c' as u8, 't' as u8, 'i' as u8, 'o' as u8, 'n' as u8]) {
        return Some(Token::Function);
    }
    if word_is(t, &['g' as u8, 'o' as u8, 't' as u8, 'o' as u8]) {
        return Some(Token::Goto);
    }
    if word_is(t, &['i' as u8, 'f' as u8]) {
        return Some(Token::If);
    }
    if word_is(t, &['i' as u8, 'n' as u8]) {
        return Some(Token::In);
    }
    if word_is(t, &['l' as u8, 'o' as u8, 'c' as u8, 'a' as u8, 'l' as u8]) {
        return Some(Token::Local);
    }
    if word_is(t, &['n' as u8, 'i' as u8, 'l' as u8]) {
        return Some(Token::Nil);
    }
    if word_is(t, &['n' as u8, 'o' as u8, 't' as u8]) {
        return Some(Token::Not);
    }
    if word_is(t, &['o' as u8, 'r' as u8]) {
        return Some(Token::Or);
    }
    if word_is(t, &['r' as u8, 'e' as u8, 'p' as u8, 'e' as u8, 'a' as u8, 't' as u8]) {
        return Some(Token::Repeat);
    }
    if word_is(t, &['r' as u8, 'e' as u8, 't' as u8, 'u' as u8, 'r' as u8, 'n' as u8]) {
        return Some(Token::Return);
    }
    if word_is(t, &['t' as u8, 'h' as u8, 'e' as u8, 'n' as u8]) {
        return Some(Token::Then);
    }
    if word_is(t, &['t' as u8, 'r' as u8, 'u' as u8, 'e' as u8]) {
        return Some(Token::True);
    }
    if word_is(t, &['u' as u8, 'n' as u8, 't' as u8, 'i' as u8, 'l' as u8]) {
        return Some(Token::Until);
    }
    if word_is(t, &['w' as u8, 'h' as u8, 'i' as u8, 'l' as u8, 'e' as u8]) {
        return Some(Token::While);
    }
    None
}

/// The scanner: a byte source, a cursor into it, and at most one token
/// looked ahead. A `0` byte ends the input, as the end of the bytes does.
#[derive(Debug)]
pub struct Lex {
    input: Vec<u8>,
    pos: usize,
    ahead: Option<Token>,
}

impl Lex {
    pub closed spec fn source(&self) -> Seq<u8> {
        self.input@
    }

    pub closed spec fn cursor(&self) -> int {
        self.pos as int
    }

    pub closed spec fn lookahead(&self) -> Option<Lexeme> {
        token_view(self.ahead)
    }

    pub closed spec fn wf(&self) -> bool {
        &&& self.pos <= self.input.len()
        &&& (self.ahead matches Some(Token::EOF) ==> self.pos == self.input.len())
    }

    /// The end of input was reached: from here on only `EOF` comes.
    pub open spec fn exhausted(&self) -> bool {
        self.cursor() == self.source().len() && (self.lookahead() is None || self.lookahead() == Some(Lexeme::EOF))
    }

    pub fn new(input: Vec<u8>) -> (r: Self)
        ensures
            r.wf(),
            r.source() == input@,
            r.cursor() <= r.source().len(),
            r.cursor() == 0,
            r.lookahead() is None,
    {
        Lex { input, pos: 0, ahead: None }
    }

    /// Consumes and returns the next token.
    pub fn next(&mut self) -> (r: Result<Token, ScanError>)
        requires
            old(self).wf(),
        ensures
            final(self).wf(),
            final(self).source() == old(self).source(),
            final(self).cursor() <= final(self).source().len(),
            final(self).lookahead() is None,
            old(self).cursor() <= final(self).cursor(),
            r == Ok::<Token, ScanError>(Token::EOF) ==> final(self).exhausted(),
            old(self).exhausted() ==> r == Ok::<Token, ScanError>(Token::EOF) && final(self).exhausted(),
            fresh(old(self).lookahead()) && r is Ok && r->Ok_0@ != Lexeme::EOF ==> old(self).cursor() < final(self).cursor(),
            ({
                let (want, at) = next_spec(old(self).source(), old(self).cursor(), old(self).lookahead());
                match r {
                    Ok(t) => want == Ok::<Lexeme, ScanError>(t@) && final(self).cursor() == at,
                    Err(e) => want == Err::<Lexeme, ScanError>(e),
                }
            }),
    {
        let ahead = self.ahead.take();
        match ahead {
            None => self.do_next(),
            Some(token) => Ok(token),
        }
    }

    /// Returns, without consuming it, the token that `next` returns next.
    pub fn peak(&mut self) -> (r: Result<Token, ScanError>)
        requires
            old(self).wf(),
        ensures
            final(self).wf(),
            final(self).source() == old(self).source(),
            final(self).cursor() <= final(self).source().len(),
            old(self).cursor() <= final(self).cursor(),
            r is Err ==> final(self).lookahead() == old(self).lookahead(),
            r == Ok::<Token, ScanError>(Token::EOF) ==> final(self).exhausted(),
            old(self).exhausted() ==> r == Ok::<Token, ScanError>(Token::EOF) && final(self).exhausted(),
            ({
                let (want, at) = next_spec(old(self).source(), old(self).cursor(), old(self).lookahead());
                match r {
                    Ok(t) => want == Ok::<Lexeme, ScanError>(t@) && final(self).cursor() == at
                        && final(self).lookahead() == Some(t@),
                    Err(e) => want == Err::<Lexeme, ScanError>(e),
                }
            }),
    {
        if let Some(t) = &self.ahead {
            return Ok(t.copy());
        }
        let t = self.do_next()?;
        self.ahead = Some(t.copy());
        Ok(t)
    }

    fn byte(&self, i: usize) -> (r: u8)
        ensures
            r == byte_at(self.input@, i as int),
    {
        if i < self.input.len() {
            self.input[i]
        } else {
            0
        }
    }

    /// Consumes the next byte if it is `b`.
    fn take(&mut self, b: u8) -> (r: bool)
        requires
            old(self).wf(),
            b != 0,
        ensures
            final(self).wf(),
            final(self).input == old(self).input,
            final(self).ahead == old(self).ahead,
            old(self).pos <= final(self).pos,
            r == (byte_at(old(self).input@, old(self).pos as int) == b),
            final(self).pos == if r { old(self).pos + 1 } else { old(self).pos as int },
    {
        if self.byte(self.pos) == b {
            self.pos = self.pos + 1;
            true
        } else {
            false
        }
    }

    fn skip_blank(&mut self)
        requires
            old(self).wf(),
        ensures
            final(self).wf(),
            final(self).input == old(self).input,
            final(self).ahead == old(self).ahead,
            old(self).pos <= final(self).pos,
            final(self).pos == skip(old(self).input@, old(self).pos as int, false),
    {
        let mut in_comment = false;
        loop
            invariant
                self.wf(),
                self.input == old(self).input,
                self.ahead == old(self).ahead,
                skip(self.input@, self.pos as int, in_comment) == skip(old(self).input@, old(self).pos as int, false),
                old(self).pos <= self.pos,
            ensures
                old(self).pos <= self.pos,
                self.wf(),
                self.input == old(self).input,
                self.ahead == old(self).ahead,
                self.pos == skip(old(self).input@, old(self).pos as int, false),
            decreases self.input.len() - self.pos,
        {
            if self.pos >= self.input.len() {
                break;
            }
            let c = self.input[self.pos];
            if in_comment {
                if c == 0 {
                    break;
                }
                if c == '\n' as u8 {
                    in_comment = false;
                }
                self.pos = self.pos + 1;
            } else if c == ' ' as u8 || c == '\r' as u8 || c == '\n' as u8 || c == '\t' as u8 {
                self.pos = self.pos + 1;
            } else if c == '-' as u8 && self.byte(self.pos + 1) == '-' as u8 {
                self.pos = self.pos + 2;
                in_comment = true;
            } else {
                break;
            }
        }
    }

    fn read_string(&mut self, quote: u8) -> (r: Result<Token, ScanError>)
        requires
            old(self).wf(),
            quote == '"' as u8 || quote == '\'' as u8,
        ensures
            final(self).wf(),
            final(self).input == old(self).input,
            final(self).ahead == old(self).ahead,
            old(self).pos <= final(self).pos,
            ({
                let q = old(self).pos as int;
                let s = old(self).input@;
                match string_close(s, quote, q, q) {
                    Some(k) => r is Ok && r->Ok_0@ == Lexeme::String(s.subrange(q, k)) && final(self).pos == k + 1,
                    None => r == Err::<Token, ScanError>(ScanError::UnfinishedString),
                }
            }),
    {
        let start = self.pos;
        let mut k = start;
        loop
            invariant
                self.wf(),
                self.pos == start,
                self.input == old(self).input,
                self.ahead == old(self).ahead,
                start == old(self).pos,
                start <= k <= self.input.len(),
                string_close(self.input@, quote, start as int, k as int)
                    == string_close(self.input@, quote, start as int, start as int),
            ensures
                self.wf(),
                self.pos == start,
                self.input == old(self).input,
                self.ahead == old(self).ahead,
                start <= k < self.input.len(),
                string_close(self.input@, quote, start as int, start as int) == Some(k as int),
            decreases self.input.len() - k,
        {
            if k >= self.input.len() {
                return Err(ScanError::UnfinishedString);
            }
            let c = self.input[k];
            if c == '\n' as u8 || c == 0 {
                return Err(ScanError::UnfinishedString);
            }
            if c == quote && !(k > start && self.input[k - 1] == '\\' as u8) {
                break;
            }
            k = k + 1;
        }
        let body = copy_range(&self.input, start, k);
        self.pos = k + 1;
        Ok(Token::String(body))
    }

    /// Scans a name or keyword whose first byte, at `p`, is consumed.
    fn read_name(&mut self, p: usize) -> (r: Token)
        requires
            old(self).wf(),
            p < old(self).pos,
        ensures
            final(self).wf(),
            final(self).input == old(self).input,
            final(self).ahead == old(self).ahead,
            old(self).pos <= final(self).pos,
            final(self).pos == name_end(old(self).input@, old(self).pos as int),
            ({
                let t = old(self).input@.subrange(p as int, final(self).pos as int);
                r@ == match keyword_of(t) { Some(k) => k, None => Lexeme::Name(t) }
            }),
    {
        while self.pos < self.input.len() && name_byte(self.input[self.pos])
            invariant
                self.wf(),
                p < self.pos,
                old(self).pos <= self.pos,
                self.input == old(self).input,
                self.ahead == old(self).ahead,
                name_end(self.input@, self.pos as int) == name_end(old(self).input@, old(self).pos as int),
            decreases self.input.len() - self.pos,
        {
            self.pos = self.pos + 1;
        }
        let t = copy_range(&self.input, p, self.pos);
        match keyword(&t) {
            Some(k) => k,
            None => Token::Name(t),
        }
    }

    /// Scans a numeric literal whose first byte, at `p`, is consumed.
    fn read_number(&mut self, p: usize) -> (r: Result<Token, ScanError>)
        requires
            old(self).wf(),
            p < old(self).pos,
        ensures
            final(self).wf(),
            final(self).input == old(self).input,
            final(self).ahead == old(self).ahead,
            old(self).pos <= final(self).pos,
            final(self).pos == number_end(old(self).input@, old(self).pos as int),
            ({
                let want = number_token(old(self).input@.subrange(p as int, final(self).pos as int));
                match r {
                    Ok(t) => want == Ok::<Lexeme, ScanError>(t@),
                    Err(e) => want == Err::<Lexeme, ScanError>(e),
                }
            }),
    {
        while self.pos < self.input.len() && number_byte(self.input[self.pos])
            invariant
                self.wf(),
                p < self.pos,
                old(self).pos <= self.pos,
                self.input == old(self).input,
                self.ahead == old(self).ahead,
                number_end(self.input@, self.pos as int) == number_end(old(self).input@, old(self).pos as int),
            decreases self.input.len() - self.pos,
        {
            self.pos = self.pos + 1;
        }
        let t = copy_range(&self.input, p, self.pos);
        number_value(t)
    }

    fn do_next(&mut self) -> (r: Result<Token, ScanError>)
        requires
            old(self).wf(),
        ensures
            final(self).wf(),
            final(self).input == old(self).input,
            final(self).ahead == old(self).ahead,
            old(self).pos <= final(self).pos,
            r is Ok && r->Ok_0@ != Lexeme::EOF ==> old(self).pos < final(self).pos,
            ({
                let (want, at) = scan(old(self).input@, old(self).pos as int);
                match r {
                    Ok(t) => want == Ok::<Lexeme, ScanError>(t@) && final(self).pos == at,
                    Err(e) => want == Err::<Lexeme, ScanError>(e),
                }
            }),
    {
        self.skip_blank();
        let p = self.pos;
        let c = self.byte(p);
        if p < self.input.len() {
            self.pos = p + 1;
        }
        if c == 0 {
            self.pos = self.input.len();
            Ok(Token::EOF)
        } else if c == '"' as u8 || c == '\'' as u8 {
            self.read_string(c)
        } else if c == '+' as u8 {
            Ok(Token::Add)
        } else if c == '-' as u8 {
            Ok(Token::Sub)
        } else if c == '*' as u8 {
            Ok(Token::Mul)
        } else if c == '/' as u8 {
            Ok(if self.take('/' as u8) { Token::Idiv } else { Token::Div })
        } else if c == '^' as u8 {
            Ok(Token::Pow)
        } else if c == '#' as u8 {
            Ok(Token::Len)
        } else if c == '&' as u8 {
            Ok(Token::BitAnd)
        } else if c == '~' as u8 {
            Ok(if self.take('=' as u8) { Token::NotEq } else { Token::BitXor })
        } else if c == '|' as u8 {
            Ok(Token::BitOr)
        } else if c == '<' as u8 {
            Ok(if self.take('<' as u8) { Token::ShiftL } else if self.take('=' as u8) { Token::LesEq } else { Token::Less })
        } else if c == '>' as u8 {
            Ok(if self.take('>' as u8) { Token::ShiftR } else if self.take('=' as u8) { Token::GreEq } else { Token::Greater })
        } else if c == '=' as u8 {
            Ok(if self.take('=' as u8) { Token::Equal } else { Token::Assign })
        } else if c == '(' as u8 {
            Ok(Token::ParL)
        } else if c == ')' as u8 {
            Ok(Token::ParR)
        } else if c == '{' as u8 {
            Ok(Token::CurlyL)
        } else if c == '}' as u8 {
            Ok(Token::CurlyR)
        } else if c == '[' as u8 {
            Ok(Token::SqurL)
        } else if c == ']' as u8 {
            Ok(Token::SqurR)
        } else if c == ';' as u8 {
            Ok(Token::SemiColon)
        } else if c == ':' as u8 {
            Ok(if self.take(':' as u8) { Token::DoubleColon } else { Token::Colon })
        } else if c == ',' as u8 {
            Ok(Token::Comma)
        } else if c == '.' as u8 && self.take('.' as u8) {
            Ok(if self.take('.' as u8) { Token::Dots } else { Token::Concat })
        } else if c == '.' as u8 && !digit(self.byte(self.pos)) {
            Ok(Token::Dot)
        } else if c == '.' as u8 || digit(c) {
            self.read_number(p)
        } else if ('a' as u8 <= c && c <= 'z' as u8) || ('A' as u8 <= c && c <= 'Z' as u8) || c == '_' as u8 {
            Ok(self.read_name(p))
        } else {
            Err(ScanError::InvalidChar(c))
        }
    }
}

} // verus!
