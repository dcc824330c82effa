//! The message grammar, stated as spec functions over bytes and positions,
//! and the recursive-descent parser that is proved to compute them.

use vstd::prelude::*;
use vstd::slice::slice_subrange;
use vstd::slice::slice_to_vec;

verus! {

/// The five fields of a message, in the order in which they must appear.
#[derive(Clone, Copy, Debug, PartialEq, Eq, Structural)]
pub enum Field {
    Temperature,
    Pressure,
    Windspeed,
    Waterlevel,
    Humidity,
}

/// Number of fields in a message.
pub const FIELD_COUNT: usize = 5;

/// The field at position `k` of a message (the last one past the end).
pub open spec fn field_at(k: int) -> Field {
    if k <= 0 {
        Field::Temperature
    } else if k == 1 {
        Field::Pressure
    } else if k == 2 {
        Field::Windspeed
    } else if k == 3 {
        Field::Waterlevel
    } else {
        Field::Humidity
    }
}

impl Field {
    /// Position of the field in a message.
    pub open spec fn spec_index(self) -> int {
        match self {
            Field::Temperature => 0,
            Field::Pressure => 1,
            Field::Windspeed => 2,
            Field::Waterlevel => 3,
            Field::Humidity => 4,
        }
    }

    /// The keyword that introduces the field, as bytes.
    pub open spec fn spec_keyword(self) -> Seq<u8> {
        match self {
            Field::Temperature => seq![
                't' as u8, 'e' as u8, 'm' as u8, 'p' as u8, 'e' as u8,
                'r' as u8, 'a' as u8, 't' as u8, 'u' as u8, 'r' as u8,
                'e' as u8,
            ],
            Field::Pressure => seq![
                'p' as u8, 'r' as u8, 'e' as u8, 's' as u8, 's' as u8,
                'u' as u8, 'r' as u8, 'e' as u8,
            ],
            Field::Windspeed => seq![
                'w' as u8, 'i' as u8, 'n' as u8, 'd' as u8, 's' as u8,
                'p' as u8, 'e' as u8, 'e' as u8, 'd' as u8,
            ],
            Field::Waterlevel => seq![
                'w' as u8, 'a' as u8, 't' as u8, 'e' as u8, 'r' as u8,
                'l' as u8, 'e' as u8, 'v' as u8, 'e' as u8, 'l' as u8,
            ],
            Field::Humidity => seq![
                'h' as u8, 'u' as u8, 'm' as u8, 'i' as u8, 'd' as u8,
                'i' as u8, 't' as u8, 'y' as u8,
            ],
        }
    }

    /// The keyword that introduces the field, as text.
    pub open spec fn spec_name(self) -> Seq<char> {
        match self {
            Field::Temperature => "temperature"@,
            Field::Pressure => "pressure"@,
            Field::Windspeed => "windspeed"@,
            Field::Waterlevel => "waterlevel"@,
            Field::Humidity => "humidity"@,
        }
    }

    /// Position of the field in a message.
    pub fn index(&self) -> (r: usize)
        ensures
            r as int == self.spec_index(),
            r < FIELD_COUNT,
    {
        match self {
            Field::Temperature => 0,
            Field::Pressure => 1,
            Field::Windspeed => 2,
            Field::Waterlevel => 3,
            Field::Humidity => 4,
        }
    }

    /// The field at position `k` of a message.
    pub fn from_index(k: usize) -> (r: Field)
        requires
            k < FIELD_COUNT,
        ensures
            r == field_at(k as int),
            r.spec_index() == k as int,
    {
        if k == 0 {
            Field::Temperature
        } else if k == 1 {
            Field::Pressure
        } else if k == 2 {
            Field::Windspeed
        } else if k == 3 {
            Field::Waterlevel
        } else {
            Field::Humidity
        }
    }

    /// The keyword that introduces the field, as bytes.
    pub fn keyword(&self) -> (r: Vec<u8>)
        ensures
            r@ == self.spec_keyword(),
    {
        let r = match self {
            Field::Temperature => vec![
                't' as u8, 'e' as u8, 'm' as u8, 'p' as u8, 'e' as u8,
                'r' as u8, 'a' as u8, 't' as u8, 'u' as u8, 'r' as u8,
                'e' as u8,
            ],
            Field::Pressure => vec![
                'p' as u8, 'r' as u8, 'e' as u8, 's' as u8, 's' as u8,
                'u' as u8, 'r' as u8, 'e' as u8,
            ],
            Field::Windspeed => vec![
                'w' as u8, 'i' as u8, 'n' as u8, 'd' as u8, 's' as u8,
                'p' as u8, 'e' as u8, 'e' as u8, 'd' as u8,
            ],
            Field::Waterlevel => vec![
                'w' as u8, 'a' as u8, 't' as u8, 'e' as u8, 'r' as u8,
                'l' as u8, 'e' as u8, 'v' as u8, 'e' as u8, 'l' as u8,
            ],
            Field::Humidity => vec![
                'h' as u8, 'u' as u8, 'm' as u8, 'i' as u8, 'd' as u8,
                'i' as u8, 't' as u8, 'y' as u8,
            ],
        };
        assert(r@ =~= self.spec_keyword());
        r
    }

    /// The keyword that introduces the field, as text.
    pub fn name(&self) -> (r: &'static str)
        ensures
            r@ == self.spec_name(),
    {
        match self {
            Field::Temperature => "temperature",
            Field::Pressure => "pressure",
            Field::Windspeed => "windspeed",
            Field::Waterlevel => "waterlevel",
            Field::Humidity => "humidity",
        }
    }
}

/// Why a frame was refused.
#[derive(Clone, Copy, Debug, PartialEq, Eq, Structural)]
pub enum DecodeError {
    /// The frame's bytes are not valid UTF-8 text.
    InvalidEncoding,
    /// The text breaks the grammar while `field` was being read (or, for the
    /// last field, where the end of the input was due): `position` is the
    /// first byte that cannot continue the message.
    GrammarMismatch { field: Field, position: usize },
    /// The text ended while `field` was still being read.
    IncompleteInput { field: Field },
}

/// Space, tab, carriage return or line feed.
pub open spec fn is_ws(b: u8) -> bool {
    b == ' ' as u8 || b == '\t' as u8 || b == '\r' as u8 || b == '\n' as u8
}

/// `0` to `9`.
pub open spec fn is_digit(b: u8) -> bool {
    '0' as u8 <= b <= '9' as u8
}

/// `+` or `-`.
pub open spec fn is_sign(b: u8) -> bool {
    b == '+' as u8 || b == '-' as u8
}

/// `e` or `E`, which starts an exponent.
pub open spec fn is_exponent_mark(b: u8) -> bool {
    b == 'e' as u8 || b == 'E' as u8
}

/// The first position at or after `i` that holds no whitespace.
pub open spec fn skip_ws(s: Seq<u8>, i: int) -> int
    decreases s.len() - i,
{
    if 0 <= i < s.len() && is_ws(s[i]) {
        skip_ws(s, i + 1)
    } else {
        i
    }
}

/// The first position at or after `i` that holds no decimal digit.
pub open spec fn skip_digits(s: Seq<u8>, i: int) -> int
    decreases s.len() - i,
{
    if 0 <= i < s.len() && is_digit(s[i]) {
        skip_digits(s, i + 1)
    } else {
        i
    }
}

/// Where a number whose mantissa ends at `e` ends: after `e`, `E`, an
/// optional sign and at least one digit; at `e` itself when no such exponent
/// follows.
pub open spec fn exponent_end(s: Seq<u8>, e: int) -> int {
    if 0 <= e < s.len() && is_exponent_mark(s[e]) {
        let f = if e + 1 < s.len() && is_sign(s[e + 1]) {
            e + 2
        } else {
            e + 1
        };
        let g = skip_digits(s, f);
        if g > f {
            g
        } else {
            e
        }
    } else {
        e
    }
}

/// `n` is one decimal number and nothing else.
pub open spec fn is_number(n: Seq<u8>) -> bool {
    number_end(n, 0) == Ok::<int, int>(n.len() as int)
}

/// A decimal number that starts at `i`: an optional sign, then digits with an
/// optional fraction (`12`, `12.`, `12.5`) or a fraction alone (`.5`), then an
/// optional exponent. `Ok` holds where the longest such number ends, `Err` the
/// position of the first byte that cannot continue it.
pub open spec fn number_end(s: Seq<u8>, i: int) -> Result<int, int> {
    let a = if 0 <= i < s.len() && is_sign(s[i]) {
        i + 1
    } else {
        i
    };
    let b = skip_digits(s, a);
    if b > a {
        if b < s.len() && s[b] == '.' as u8 {
            Ok(exponent_end(s, skip_digits(s, b + 1)))
        } else {
            Ok(exponent_end(s, b))
        }
    } else if 0 <= a < s.len() && s[a] == '.' as u8 {
        let c = skip_digits(s, a + 1);
        if c > a + 1 {
            Ok(exponent_end(s, c))
        } else {
            Err(a + 1)
        }
    } else {
        Err(a)
    }
}

/// How many bytes of `name`, counting on from the `k`-th, `s` holds from
/// position `i` on.
pub open spec fn matched_len(s: Seq<u8>, i: int, name: Seq<u8>, k: int) -> int
    decreases name.len() - k,
{
    if 0 <= k < name.len() && 0 <= i + k < s.len() && s[i + k] == name[k] {
        matched_len(s, i, name, k + 1)
    } else {
        k
    }
}

/// `name` at position `i`: `Ok` holds where it ends, `Err` the first byte
/// that differs from it.
pub open spec fn literal_end(s: Seq<u8>, i: int, name: Seq<u8>) -> Result<int, int> {
    let k = matched_len(s, i, name, 0);
    if k == name.len() {
        Ok(i + k)
    } else {
        Err(i + k)
    }
}

/// keyword := whitespace* name whitespace*
pub open spec fn keyword_end(s: Seq<u8>, i: int, f: Field) -> Result<int, int> {
    match literal_end(s, skip_ws(s, i), f.spec_keyword()) {
        Ok(j) => Ok(skip_ws(s, j)),
        Err(p) => Err(p),
    }
}

/// value := whitespace* number whitespace*
/// `Ok((start, end, next))`: the number is `s[start..end]`, the value ends at `next`.
pub open spec fn value_span(s: Seq<u8>, i: int) -> Result<(int, int, int), int> {
    let a = skip_ws(s, i);
    match number_end(s, a) {
        Ok(b) => Ok((a, b, skip_ws(s, b))),
        Err(p) => Err(p),
    }
}

/// reading := keyword ':' value
pub open spec fn reading_span(s: Seq<u8>, i: int, f: Field) -> Result<(int, int, int), int> {
    match keyword_end(s, i, f) {
        Ok(j) => if 0 <= j < s.len() && s[j] == ':' as u8 {
            value_span(s, j + 1)
        } else {
            Err(j)
        },
        Err(p) => Err(p),
    }
}

/// The fields from the `k`-th on, read from position `i`, after the spans
/// `acc` of those before: all the numbers' spans and where the last field
/// ends, or the index of the field that failed and where.
pub open spec fn fields_from(s: Seq<u8>, i: int, k: int, acc: Seq<(int, int)>) -> Result<
    (Seq<(int, int)>, int),
    (int, int),
>
    decreases 5 - k,
{
    if k >= 5 {
        Ok((acc, i))
    } else {
        match reading_span(s, i, field_at(k)) {
            Ok((a, b, j)) => fields_from(s, j, k + 1, acc.push((a, b))),
            Err(p) => Err((k, p)),
        }
    }
}

/// The error for a failure of the `k`-th field at position `p`.
pub open spec fn failure(s: Seq<u8>, k: int, p: int) -> DecodeError {
    if p >= s.len() {
        DecodeError::IncompleteInput { field: field_at(k) }
    } else {
        DecodeError::GrammarMismatch { field: field_at(k), position: p as usize }
    }
}

/// message := reading("temperature") reading("pressure") reading("windspeed")
///            reading("waterlevel") reading("humidity") end-of-input
/// read from position `i`: the spans of the five numbers, or the error.
pub open spec fn message_spans(s: Seq<u8>, i: int) -> Result<Seq<(int, int)>, DecodeError> {
    match fields_from(s, i, 0, Seq::empty()) {
        Ok((spans, e)) => if e == s.len() {
            Ok(spans)
        } else {
            Err(failure(s, 4, e))
        },
        Err((k, p)) => Err(failure(s, k, p)),
    }
}

/// A cursor result read as integers.
pub open spec fn at(r: Result<usize, usize>) -> Result<int, int> {
    match r {
        Ok(j) => Ok(j as int),
        Err(p) => Err(p as int),
    }
}

/// Where a value's number lies in the input, and where the value ends.
#[derive(Clone, Copy, Debug, PartialEq, Eq, Structural)]
pub struct Token {
    pub start: usize,
    pub end: usize,
    pub next: usize,
}

/// Where a number lies in the input.
#[derive(Clone, Copy, Debug, PartialEq, Eq, Structural)]
pub struct Span {
    pub start: usize,
    pub end: usize,
}

/// A token result read as integers.
pub open spec fn token_at(r: Result<Token, usize>) -> Result<(int, int, int), int> {
    match r {
        Ok(t) => Ok((t.start as int, t.end as int, t.next as int)),
        Err(p) => Err(p as int),
    }
}

/// A span read as a pair of integers.
pub open spec fn span_pair(sp: Span) -> (int, int) {
    (sp.start as int, sp.end as int)
}

/// Spans read as pairs of integers.
pub open spec fn span_pairs(v: Seq<Span>) -> Seq<(int, int)> {
    v.map_values(|sp: Span| span_pair(sp))
}

/// Five spans of `s`, each holding a number that ends where the span does.
pub open spec fn spans_within(v: Seq<Span>, s: Seq<u8>) -> bool {
    &&& v.len() == 5
    &&& forall|m: int|
        0 <= m < 5 ==> #[trigger] v[m].start < v[m].end <= s.len() && number_end(
            s,
            v[m].start as int,
        ) == Ok::<int, int>(v[m].end as int)
}

/// A list of spans read as pairs of integers.
pub open spec fn spans_at(r: Result<Vec<Span>, DecodeError>) -> Result<Seq<(int, int)>, DecodeError> {
    match r {
        Ok(v) => Ok(span_pairs(v@)),
        Err(e) => Err(e),
    }
}

fn is_space(b: u8) -> (r: bool)
    ensures
        r == is_ws(b),
{
    b == ' ' as u8 || b == '\t' as u8 || b == '\r' as u8 || b == '\n' as u8
}

fn is_decimal_digit(b: u8) -> (r: bool)
    ensures
        r == is_digit(b),
{
    '0' as u8 <= b && b <= '9' as u8
}

fn is_sign_byte(b: u8) -> (r: bool)
    ensures
        r == is_sign(b),
{
    b == '+' as u8 || b == '-' as u8
}

/// The whitespace byte at `pos`, if there is one.
pub fn whitespace(input: &[u8], pos: usize) -> (r: Option<u8>)
    ensures
        r == (if pos < input@.len() && is_ws(input@[pos as int]) {
            Some(input@[pos as int])
        } else {
            None::<u8>
        }),
{
    if pos < input.len() && is_space(input[pos]) {
        Some(input[pos])
    } else {
        None
    }
}

/// Skips any run of whitespace from `pos` on; returns where it stops.
pub fn whitespaces(input: &[u8], pos: usize) -> (r: usize)
    requires
        pos <= input@.len(),
    ensures
        r as int == skip_ws(input@, pos as int),
        pos <= r <= input@.len(),
{
    let n = input.len();
    let mut i = pos;
    loop
        invariant
            n == input@.len(),
            pos <= i <= n,
            skip_ws(input@, pos as int) == skip_ws(input@, i as int),
        decreases input@.len() - i,
    {
        match whitespace(input, i) {
            Some(_) => i = i + 1,
            None => return i,
        }
    }
}

fn digits(input: &[u8], pos: usize) -> (r: usize)
    requires
        pos <= input@.len(),
    ensures
        r as int == skip_digits(input@, pos as int),
        pos <= r <= input@.len(),
{
    let mut i = pos;
    while i < input.len() && is_decimal_digit(input[i])
        invariant
            pos <= i <= input@.len(),
            skip_digits(input@, pos as int) == skip_digits(input@, i as int),
        decreases input@.len() - i,
    {
        i = i + 1;
    }
    i
}

fn exponent(input: &[u8], e: usize) -> (r: usize)
    requires
        e <= input@.len(),
    ensures
        r as int == exponent_end(input@, e as int),
        e <= r <= input@.len(),
{
    if e < input.len() && (input[e] == 'e' as u8 || input[e] == 'E' as u8) {
        let f = if e + 1 < input.len() && is_sign_byte(input[e + 1]) {
            e + 2
        } else {
            e + 1
        };
        let g = digits(input, f);
        if g > f {
            g
        } else {
            e
        }
    } else {
        e
    }
}

/// Reads a decimal number at `pos` (see `number_end`).
pub fn number(input: &[u8], pos: usize) -> (r: Result<usize, usize>)
    requires
        pos <= input@.len(),
    ensures
        at(r) == number_end(input@, pos as int),
        match r {
            Ok(j) => pos < j <= input@.len(),
            Err(p) => pos <= p <= input@.len(),
        },
{
    let a = if pos < input.len() && is_sign_byte(input[pos]) {
        pos + 1
    } else {
        pos
    };
    let b = digits(input, a);
    if b > a {
        if b < input.len() && input[b] == '.' as u8 {
            Ok(exponent(input, digits(input, b + 1)))
        } else {
            Ok(exponent(input, b))
        }
    } else if a < input.len() && input[a] == '.' as u8 {
        let c = digits(input, a + 1);
        if c > a + 1 {
            Ok(exponent(input, c))
        } else {
            Err(a + 1)
        }
    } else {
        Err(a)
    }
}

/// Reads `name` at `pos` (see `literal_end`).
fn literal(input: &[u8], pos: usize, name: &Vec<u8>) -> (r: Result<usize, usize>)
    requires
        pos <= input@.len(),
    ensures
        at(r) == literal_end(input@, pos as int, name@),
        match r {
            Ok(j) => pos <= j <= input@.len(),
            Err(p) => pos <= p <= input@.len(),
        },
{
    let n = input.len();
    let mut k: usize = 0;
    while k < name.len() && k < n - pos && input[pos + k] == name[k]
        invariant
            n == input@.len(),
            k <= name@.len(),
            pos + k <= n,
            matched_len(input@, pos as int, name@, 0) == matched_len(input@, pos as int, name@, k as int),
        decreases name@.len() - k,
    {
        k = k + 1;
    }
    let j = pos + k;
    if k == name.len() {
        Ok(j)
    } else {
        Err(j)
    }
}

/// Reads the keyword of `field` at `pos`, with the whitespace around it.
pub fn keyword(input: &[u8], pos: usize, field: Field) -> (r: Result<usize, usize>)
    requires
        pos <= input@.len(),
    ensures
        at(r) == keyword_end(input@, pos as int, field),
        match r {
            Ok(j) => pos <= j <= input@.len(),
            Err(p) => pos <= p <= input@.len(),
        },
{
    let a = whitespaces(input, pos);
    let name = field.keyword();
    match literal(input, a, &name) {
        Ok(j) => Ok(whitespaces(input, j)),
        Err(p) => Err(p),
    }
}

/// Reads a value at `pos`: a number with the whitespace around it.
pub fn value(input: &[u8], pos: usize) -> (r: Result<Token, usize>)
    requires
        pos <= input@.len(),
    ensures
        token_at(r) == value_span(input@, pos as int),
        match r {
            Ok(t) => pos <= t.start < t.end <= t.next <= input@.len() && number_end(
                input@,
                t.start as int,
            ) == Ok::<int, int>(t.end as int),
            Err(p) => pos <= p <= input@.len(),
        },
{
    let a = whitespaces(input, pos);
    match number(input, a) {
        Ok(b) => Ok(Token { start: a, end: b, next: whitespaces(input, b) }),
        Err(p) => Err(p),
    }
}

/// Reads the field `field` at `pos`: its keyword, a colon and its value.
pub fn reading(input: &[u8], pos: usize, field: Field) -> (r: Result<Token, usize>)
    requires
        pos <= input@.len(),
    ensures
        token_at(r) == reading_span(input@, pos as int, field),
        match r {
            Ok(t) => pos < t.start < t.end <= t.next <= input@.len() && number_end(
                input@,
                t.start as int,
            ) == Ok::<int, int>(t.end as int),
            Err(p) => pos <= p <= input@.len(),
        },
{
    match keyword(input, pos, field) {
        Ok(j) => if j < input.len() && input[j] == ':' as u8 {
            value(input, j + 1)
        } else {
            Err(j)
        },
        Err(p) => Err(p),
    }
}

/// Reads the five fields in order from `pos`, which must then be followed by
/// the end of the input; returns where each field's number lies.
pub fn readings(input: &[u8], pos: usize) -> (r: Result<Vec<Span>, DecodeError>)
    requires
        pos <= input@.len(),
    ensures
        spans_at(r) == message_spans(input@, pos as int),
        r is Ok ==> spans_within(r->Ok_0@, input@),
{
    let mut spans: Vec<Span> = Vec::new();
    let mut cur = pos;
    let mut k: usize = 0;
    assert(span_pairs(spans@) =~= Seq::empty());
    while k < FIELD_COUNT
        invariant
            k <= 5,
            spans@.len() == k,
            forall|m: int|
                0 <= m < k ==> #[trigger] spans@[m].start < spans@[m].end <= cur && number_end(
                    input@,
                    spans@[m].start as int,
                ) == Ok::<int, int>(spans@[m].end as int),
            pos <= cur <= input@.len(),
            fields_from(input@, pos as int, 0, Seq::empty()) == fields_from(
                input@,
                cur as int,
                k as int,
                span_pairs(spans@),
            ),
        decreases 5 - k,
    {
        let field = Field::from_index(k);
        match reading(input, cur, field) {
            Ok(t) => {
                let ghost before = spans@;
                spans.push(Span { start: t.start, end: t.end });
                assert(span_pairs(spans@) =~= span_pairs(before).push((t.start as int, t.end as int)));
                cur = t.next;
            },
            Err(p) => {
                return Err(
                    if p >= input.len() {
                        DecodeError::IncompleteInput { field }
                    } else {
                        DecodeError::GrammarMismatch { field, position: p }
                    },
                );
            },
        }
        k = k + 1;
    }
    if cur == input.len() {
        Ok(spans)
    } else {
        Err(DecodeError::GrammarMismatch { field: Field::Humidity, position: cur })
    }
}

/// Reads a whole input as one message (see `message_spans`).
pub fn consume(input: &[u8]) -> (r: Result<Vec<Span>, DecodeError>)
    ensures
        spans_at(r) == message_spans(input@, 0),
        r is Ok ==> spans_within(r->Ok_0@, input@),
{
    readings(input, 0)
}

/// A run of digits ends inside the input, at or after where it starts.
pub proof fn lemma_skip_digits_bounds(s: Seq<u8>, i: int)
    requires
        0 <= i <= s.len(),
    ensures
        i <= skip_digits(s, i) <= s.len(),
    decreases s.len() - i,
{
    if i < s.len() && is_digit(s[i]) {
        lemma_skip_digits_bounds(s, i + 1);
    }
}

proof fn lemma_exponent_bounds(s: Seq<u8>, e: int)
    requires
        0 <= e <= s.len(),
    ensures
        e <= exponent_end(s, e) <= s.len(),
{
    if e < s.len() && is_exponent_mark(s[e]) {
        let f = if e + 1 < s.len() && is_sign(s[e + 1]) {
            e + 2
        } else {
            e + 1
        };
        lemma_skip_digits_bounds(s, f);
    }
}

/// Digits counted in `s[c..d]` stop where they stop in `s`, or at `d`.
proof fn lemma_skip_digits_cut(s: Seq<u8>, c: int, d: int, i: int)
    requires
        0 <= c <= d <= s.len(),
        0 <= i <= d - c,
    ensures
        skip_digits(s.subrange(c, d), i) == (if skip_digits(s, c + i) < d {
            skip_digits(s, c + i)
        } else {
            d
        }) - c,
    decreases d - c - i,
{
    let n = s.subrange(c, d);
    lemma_skip_digits_bounds(s, c + i);
    if i < d - c {
        assert(n[i] == s[c + i]);
        if is_digit(n[i]) {
            lemma_skip_digits_cut(s, c, d, i + 1);
        }
    }
}

proof fn lemma_exponent_cut(s: Seq<u8>, c: int, d: int, e: int)
    requires
        0 <= c <= e <= d <= s.len(),
        exponent_end(s, e) == d,
    ensures
        exponent_end(s.subrange(c, d), e - c) == d - c,
{
    let n = s.subrange(c, d);
    if e < d {
        assert(n[e - c] == s[e]);
        let f = if e + 1 < s.len() && is_sign(s[e + 1]) {
            e + 2
        } else {
            e + 1
        };
        lemma_skip_digits_bounds(s, f);
        assert(n[e + 1 - c] == s[e + 1]);
        lemma_skip_digits_cut(s, c, d, f - c);
    }
}

/// A number read inside a longer input is, taken out on its own, one whole
/// number.
pub proof fn lemma_number_stands_alone(s: Seq<u8>, c: int)
    requires
        0 <= c <= s.len(),
        number_end(s, c) is Ok,
    ensures
        c < number_end(s, c)->Ok_0 <= s.len(),
        is_number(s.subrange(c, number_end(s, c)->Ok_0)),
{
    let d = number_end(s, c)->Ok_0;
    let n = s.subrange(c, d);
    let a = if c < s.len() && is_sign(s[c]) {
        c + 1
    } else {
        c
    };
    lemma_skip_digits_bounds(s, a);
    let b = skip_digits(s, a);
    if b > a {
        if b < s.len() && s[b] == '.' as u8 {
            lemma_skip_digits_bounds(s, b + 1);
            lemma_exponent_bounds(s, skip_digits(s, b + 1));
            lemma_skip_digits_cut(s, c, d, a - c);
            lemma_skip_digits_cut(s, c, d, b + 1 - c);
            assert(n[b - c] == s[b]);
            lemma_exponent_cut(s, c, d, skip_digits(s, b + 1));
        } else {
            lemma_exponent_bounds(s, b);
            lemma_skip_digits_cut(s, c, d, a - c);
            if b < d {
                assert(n[b - c] == s[b]);
            }
            lemma_exponent_cut(s, c, d, b);
        }
    } else {
        lemma_skip_digits_bounds(s, a + 1);
        lemma_exponent_bounds(s, skip_digits(s, a + 1));
        lemma_skip_digits_cut(s, c, d, a - c);
        lemma_skip_digits_cut(s, c, d, a + 1 - c);
        assert(n[a - c] == s[a]);
        lemma_exponent_cut(s, c, d, skip_digits(s, a + 1));
    }
    assert(n[0] == s[c]);
}

/// The numbers of a message, each as its decimal text, in field order; or
/// the error that the grammar gives.
pub open spec fn message_values(s: Seq<u8>) -> Result<Seq<Seq<u8>>, DecodeError> {
    match message_spans(s, 0) {
        Ok(spans) => Ok(spans.map_values(|p: (int, int)| s.subrange(p.0, p.1))),
        Err(e) => Err(e),
    }
}

/// A message that matched the grammar: the decimal text of each of its five
/// numbers, in field order. Each is one whole decimal number, so turning it
/// into a floating-point value cannot fail.
pub struct ParsedData {
    values: Vec<Vec<u8>>,
}

/// The five fields of a message with their decimal text, in order.
pub type Readings = (
    (Field, Vec<u8>),
    (Field, Vec<u8>),
    (Field, Vec<u8>),
    (Field, Vec<u8>),
    (Field, Vec<u8>),
);

/// A decoded record: the decimal text of each of the five fields.
pub struct Reading {
    pub temperature: Vec<u8>,
    pub pressure: Vec<u8>,
    pub windspeed: Vec<u8>,
    pub waterlevel: Vec<u8>,
    pub humidity: Vec<u8>,
}

impl Reading {
    /// The record's numbers in field order.
    pub open spec fn values(&self) -> Seq<Seq<u8>> {
        seq![self.temperature@, self.pressure@, self.windspeed@, self.waterlevel@, self.humidity@]
    }
}

/// A parse result read through the views of its values.
pub open spec fn parsed_at(r: Result<ParsedData, DecodeError>) -> Result<Seq<Seq<u8>>, DecodeError> {
    match r {
        Ok(p) => Ok(p@),
        Err(e) => Err(e),
    }
}

impl View for ParsedData {
    type V = Seq<Seq<u8>>;

    closed spec fn view(&self) -> Seq<Seq<u8>> {
        self.values@.map_values(|v: Vec<u8>| v@)
    }
}

fn copy_bytes(v: &Vec<u8>) -> (r: Vec<u8>)
    ensures
        r@ == v@,
{
    slice_to_vec(v.as_slice())
}

impl ParsedData {
    #[verifier::type_invariant]
    spec fn inv(&self) -> bool {
        &&& self.values@.len() == 5
        &&& forall|m: int| 0 <= m < 5 ==> is_number(#[trigger] self.values@[m]@)
    }

    /// The numbers with the fields that they belong to, in message order.
    pub fn to_tuple(&self) -> (r: Readings)
        ensures
            self@.len() == 5,
            forall|m: int| 0 <= m < 5 ==> is_number(#[trigger] self@[m]),
            r.0.0 == Field::Temperature && r.0.1@ == self@[0],
            r.1.0 == Field::Pressure && r.1.1@ == self@[1],
            r.2.0 == Field::Windspeed && r.2.1@ == self@[2],
            r.3.0 == Field::Waterlevel && r.3.1@ == self@[3],
            r.4.0 == Field::Humidity && r.4.1@ == self@[4],
    {
        proof {
            use_type_invariant(self);
            assert forall|m: int| 0 <= m < 5 implies is_number(#[trigger] self@[m]) by {
                assert(self@[m] == self.values@[m]@);
            }
        }
        (
            (Field::Temperature, copy_bytes(&self.values[0])),
            (Field::Pressure, copy_bytes(&self.values[1])),
            (Field::Windspeed, copy_bytes(&self.values[2])),
            (Field::Waterlevel, copy_bytes(&self.values[3])),
            (Field::Humidity, copy_bytes(&self.values[4])),
        )
    }

    /// The numbers as a record keyed by field name.
    pub fn to_reading(&self) -> (r: Reading)
        ensures
            self@.len() == 5,
            forall|m: int| 0 <= m < 5 ==> is_number(#[trigger] self@[m]),
            r.values() == self@,
    {
        proof {
            use_type_invariant(self);
            assert forall|m: int| 0 <= m < 5 implies is_number(#[trigger] self@[m]) by {
                assert(self@[m] == self.values@[m]@);
            }
        }
        let r = Reading {
            temperature: copy_bytes(&self.values[0]),
            pressure: copy_bytes(&self.values[1]),
            windspeed: copy_bytes(&self.values[2]),
            waterlevel: copy_bytes(&self.values[3]),
            humidity: copy_bytes(&self.values[4]),
        };
        assert(r.values() =~= self@);
        r
    }
}

/// Checks `input` against the message grammar and takes out its numbers.
pub fn parse(input: &[u8]) -> (r: Result<ParsedData, DecodeError>)
    ensures
        parsed_at(r) == message_values(input@),
{
    match consume(input) {
        Ok(spans) => {
            assert(spans_within(spans@, input@));
            let mut values: Vec<Vec<u8>> = Vec::new();
            let mut k: usize = 0;
            while k < FIELD_COUNT
                invariant
                    k <= 5,
                    spans_within(spans@, input@),
                    values@.len() == k,
                    forall|m: int|
                        0 <= m < k ==> (#[trigger] values@[m])@ == input@.subrange(
                            spans@[m].start as int,
                            spans@[m].end as int,
                        ) && is_number(values@[m]@),
                decreases 5 - k,
            {
                let sp = spans[k];
                proof {
                    lemma_number_stands_alone(input@, sp.start as int);
                }
                values.push(slice_to_vec(slice_subrange(input, sp.start, sp.end)));
                k = k + 1;
            }
            let parsed = ParsedData { values };
            assert(parsed@ =~= message_values(input@)->Ok_0);
            Ok(parsed)
        },
        Err(e) => Err(e),
    }
}

} // verus!
