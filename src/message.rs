//! Well-formed messages, written with any whitespace, and what the grammar
//! does with them: it accepts them with their numbers, and refuses them with
//! fields swapped, left out, or followed by text.

use vstd::prelude::*;
use vstd::utf8::pop_first_scalar;
use vstd::utf8::valid_utf8;

use crate::decode::decoded;
use crate::parser::message_values;
use crate::parser::exponent_end;
use crate::parser::field_at;
use crate::parser::fields_from;
use crate::parser::is_digit;
use crate::parser::is_exponent_mark;
use crate::parser::is_number;
use crate::parser::is_sign;
use crate::parser::is_ws;
use crate::parser::keyword_end;
use crate::parser::matched_len;
use crate::parser::message_spans;
use crate::parser::number_end;
use crate::parser::reading_span;
use crate::parser::lemma_skip_digits_bounds;
use crate::parser::skip_digits;
use crate::parser::skip_ws;
use crate::parser::value_span;
use crate::parser::DecodeError;
use crate::parser::Field;

verus! {

/// Every byte of `w` is whitespace.
pub open spec fn all_ws(w: Seq<u8>) -> bool {
    forall|m: int| 0 <= m < w.len() ==> is_ws(#[trigger] w[m])
}

/// A byte that no number can go on with.
pub open spec fn ends_number(b: u8) -> bool {
    !is_digit(b) && b != '.' as u8 && !is_exponent_mark(b) && !is_sign(b)
}

/// How one field is written: whitespace before its keyword, between keyword
/// and colon, between colon and number, and after the number.
pub struct FieldText {
    pub lead: Seq<u8>,
    pub gap: Seq<u8>,
    pub pad: Seq<u8>,
    pub number: Seq<u8>,
    pub trail: Seq<u8>,
}

impl FieldText {
    /// Whitespace where whitespace goes, and one whole decimal number.
    pub open spec fn well_formed(self) -> bool {
        &&& all_ws(self.lead)
        &&& all_ws(self.gap)
        &&& all_ws(self.pad)
        &&& all_ws(self.trail)
        &&& is_number(self.number)
    }

    /// The field `f` written this way.
    pub open spec fn text(self, f: Field) -> Seq<u8> {
        self.lead + f.spec_keyword() + self.gap + seq![':' as u8] + self.pad + self.number
            + self.trail
    }

    /// Where the number starts in `self.text(f)`.
    pub open spec fn number_start(self, f: Field) -> int {
        (self.lead.len() + f.spec_keyword().len() + self.gap.len() + 1 + self.pad.len()) as int
    }
}

/// The fields `fields`, written as `texts` say, one after the other.
pub open spec fn render(fields: Seq<Field>, texts: Seq<FieldText>) -> Seq<u8>
    decreases fields.len(),
{
    if fields.len() == 0 || texts.len() == 0 {
        Seq::empty()
    } else {
        texts[0].text(fields[0]) + render(fields.drop_first(), texts.drop_first())
    }
}

/// The fields in the order that a message must give them.
pub open spec fn in_order() -> Seq<Field> {
    seq![Field::Temperature, Field::Pressure, Field::Windspeed, Field::Waterlevel, Field::Humidity]
}

/// Every text is well formed.
pub open spec fn all_well_formed(texts: Seq<FieldText>) -> bool {
    forall|m: int| 0 <= m < texts.len() ==> (#[trigger] texts[m]).well_formed()
}

proof fn lemma_skip_ws_bounds(s: Seq<u8>, i: int)
    requires
        0 <= i <= s.len(),
    ensures
        i <= skip_ws(s, i) <= s.len(),
        skip_ws(s, skip_ws(s, i)) == skip_ws(s, i),
        skip_ws(s, i) < s.len() ==> !is_ws(s[skip_ws(s, i)]),
    decreases s.len() - i,
{
    if i < s.len() && is_ws(s[i]) {
        lemma_skip_ws_bounds(s, i + 1);
    }
}

proof fn lemma_skip_ws_run(s: Seq<u8>, i: int, j: int)
    requires
        0 <= i <= j <= s.len(),
        forall|m: int| i <= m < j ==> is_ws(#[trigger] s[m]),
    ensures
        skip_ws(s, i) == skip_ws(s, j),
    decreases j - i,
{
    if i < j {
        lemma_skip_ws_run(s, i + 1, j);
    }
}

/// `n` stands in `s` at `a`, and what follows it there cannot go on with a
/// number.
pub open spec fn embedded(n: Seq<u8>, s: Seq<u8>, a: int) -> bool {
    &&& 0 <= a
    &&& a + n.len() <= s.len()
    &&& s.subrange(a, a + n.len()) == n
    &&& (a + n.len() < s.len() ==> ends_number(s[a + n.len()]))
}

proof fn lemma_skip_digits_shift(n: Seq<u8>, s: Seq<u8>, a: int, i: int)
    requires
        embedded(n, s, a),
        0 <= i <= n.len(),
    ensures
        skip_digits(s, a + i) == a + skip_digits(n, i),
    decreases n.len() - i,
{
    if i < n.len() {
        assert(s[a + i] == s.subrange(a, a + n.len())[i]);
        if is_digit(n[i]) {
            lemma_skip_digits_shift(n, s, a, i + 1);
        }
    }
}

proof fn lemma_exponent_shift(n: Seq<u8>, s: Seq<u8>, a: int, e: int)
    requires
        embedded(n, s, a),
        0 <= e <= n.len(),
    ensures
        exponent_end(s, a + e) == a + exponent_end(n, e),
{
    if e < n.len() {
        assert(s[a + e] == s.subrange(a, a + n.len())[e]);
        if is_exponent_mark(n[e]) {
            if e + 1 < n.len() {
                assert(s[a + e + 1] == s.subrange(a, a + n.len())[e + 1]);
            }
            let f = if e + 1 < n.len() && is_sign(n[e + 1]) {
                e + 2
            } else {
                e + 1
            };
            lemma_skip_digits_shift(n, s, a, f);
        }
    }
}

/// A number read inside a longer input ends where it ends on its own.
proof fn lemma_number_shift(n: Seq<u8>, s: Seq<u8>, a: int)
    requires
        embedded(n, s, a),
    ensures
        number_end(s, a) == (match number_end(n, 0) {
            Ok(j) => Ok(a + j),
            Err(p) => Err::<int, int>(a + p),
        }),
{
    if 0 < n.len() {
        assert(s[a] == s.subrange(a, a + n.len())[0]);
    }
    let a0: int = if 0 < n.len() && is_sign(n[0]) {
        1
    } else {
        0
    };
    lemma_skip_digits_shift(n, s, a, a0);
    lemma_skip_digits_bounds(n, a0);
    let b = skip_digits(n, a0);
    if b > a0 {
        if b < n.len() {
            assert(s[a + b] == s.subrange(a, a + n.len())[b]);
            if n[b] == '.' as u8 {
                lemma_skip_digits_shift(n, s, a, b + 1);
                lemma_skip_digits_bounds(n, b + 1);
                lemma_exponent_shift(n, s, a, skip_digits(n, b + 1));
            } else {
                lemma_exponent_shift(n, s, a, b);
            }
        } else {
            lemma_exponent_shift(n, s, a, b);
        }
    } else if a0 < n.len() {
        assert(s[a + a0] == s.subrange(a, a + n.len())[a0]);
        if n[a0] == '.' as u8 {
            lemma_skip_digits_shift(n, s, a, a0 + 1);
            lemma_skip_digits_bounds(n, a0 + 1);
            let c = skip_digits(n, a0 + 1);
            if c > a0 + 1 {
                lemma_exponent_shift(n, s, a, c);
            }
        }
    }
}

proof fn lemma_number_first(n: Seq<u8>)
    requires
        is_number(n),
    ensures
        n.len() > 0,
        ends_number(n[0]) || is_digit(n[0]) || n[0] == '.' as u8 || is_sign(n[0]),
        !is_ws(n[0]),
{
    lemma_skip_digits_bounds(n, 0);
    if n.len() > 0 {
        lemma_skip_digits_bounds(n, 1);
    }
}

proof fn lemma_matched_full(s: Seq<u8>, p: int, kw: Seq<u8>, k: int)
    requires
        0 <= p,
        p + kw.len() <= s.len(),
        s.subrange(p, p + kw.len()) == kw,
        0 <= k <= kw.len(),
    ensures
        matched_len(s, p, kw, k) == kw.len(),
    decreases kw.len() - k,
{
    if k < kw.len() {
        assert(s[p + k] == s.subrange(p, p + kw.len())[k]);
        lemma_matched_full(s, p, kw, k + 1);
    }
}

proof fn lemma_matched_stops(s: Seq<u8>, p: int, kw: Seq<u8>, k: int, m: int)
    requires
        0 <= p,
        0 <= k <= m < kw.len(),
        p + m < s.len(),
        s[p + m] != kw[m],
    ensures
        k <= matched_len(s, p, kw, k) <= m,
    decreases m - k,
{
    if k < m && s[p + k] == kw[k] {
        lemma_matched_stops(s, p, kw, k + 1, m);
    }
}

proof fn lemma_keyword_start(f: Field)
    ensures
        f.spec_keyword().len() >= 2,
        ends_number(f.spec_keyword()[0]),
        !is_ws(f.spec_keyword()[0]),
{
}

/// Two keywords differ at a position that both have.
proof fn lemma_keywords_differ(f: Field, g: Field) -> (m: int)
    requires
        f != g,
    ensures
        0 <= m < f.spec_keyword().len(),
        m < g.spec_keyword().len(),
        f.spec_keyword()[m] != g.spec_keyword()[m],
{
    if (f == Field::Windspeed || f == Field::Waterlevel) && (g == Field::Windspeed || g
        == Field::Waterlevel) {
        1
    } else {
        0
    }
}

proof fn lemma_text_start(f: Field, t: FieldText)
    requires
        t.well_formed(),
    ensures
        t.text(f).len() > 0,
        ends_number(t.text(f)[0]),
{
    lemma_keyword_start(f);
    if t.lead.len() > 0 {
        assert(t.text(f)[0] == t.lead[0]);
    } else {
        assert(t.text(f)[0] == f.spec_keyword()[0]);
    }
}

/// `piece` stands at `off` in `whole`, which stands at `i` in `s`.
proof fn lemma_piece(s: Seq<u8>, i: int, whole: Seq<u8>, off: int, piece: Seq<u8>)
    requires
        0 <= i,
        i + whole.len() <= s.len(),
        s.subrange(i, i + whole.len()) == whole,
        0 <= off,
        off + piece.len() <= whole.len(),
        whole.subrange(off, off + piece.len()) == piece,
    ensures
        s.subrange(i + off, i + off + piece.len()) == piece,
{
    assert(s.subrange(i + off, i + off + piece.len()) =~= piece) by {
        assert forall|m: int| 0 <= m < piece.len() implies s.subrange(
            i + off,
            i + off + piece.len(),
        )[m] == piece[m] by {
            assert(s[i + off + m] == s.subrange(i, i + whole.len())[off + m]);
            assert(piece[m] == whole.subrange(off, off + piece.len())[m]);
        }
    }
}

proof fn lemma_reading_skip(s: Seq<u8>, i: int, f: Field)
    requires
        0 <= i <= s.len(),
    ensures
        reading_span(s, i, f) == reading_span(s, skip_ws(s, i), f),
{
    lemma_skip_ws_bounds(s, i);
}

/// Where each piece of a field text starts.
pub open spec fn piece_starts(f: Field, t: FieldText) -> Seq<int> {
    let kw_at = t.lead.len() as int;
    let gap_at = kw_at + f.spec_keyword().len();
    let colon_at = gap_at + t.gap.len();
    let pad_at = colon_at + 1;
    let number_at = pad_at + t.pad.len();
    let trail_at = number_at + t.number.len();
    let end_at = trail_at + t.trail.len();
    seq![0, kw_at, gap_at, colon_at, pad_at, number_at, trail_at, end_at]
}

/// The pieces of a field text in order.
pub open spec fn pieces(f: Field, t: FieldText) -> Seq<Seq<u8>> {
    seq![t.lead, f.spec_keyword(), t.gap, seq![':' as u8], t.pad, t.number, t.trail]
}

proof fn lemma_text_pieces(f: Field, t: FieldText)
    ensures
        piece_starts(f, t)[7] == t.text(f).len(),
        forall|k: int|
            0 <= k < 7 ==> t.text(f).subrange(piece_starts(f, t)[k], piece_starts(f, t)[k + 1])
                == #[trigger] pieces(f, t)[k],
        forall|k: int|
            0 <= k < 7 ==> piece_starts(f, t)[k + 1] == piece_starts(f, t)[k] + (#[trigger] pieces(
                f,
                t,
            )[k]).len(),
{
    let text = t.text(f);
    let ps = piece_starts(f, t);
    let pc = pieces(f, t);
    assert forall|k: int| 0 <= k < 7 implies text.subrange(ps[k], ps[k + 1]) == #[trigger] pc[k] by {
        assert(text.subrange(ps[k], ps[k + 1]) =~= pc[k]);
    }
}

/// The `k`-th piece of a field text standing at `i` in `s` stands in `s` too.
proof fn lemma_text_piece(s: Seq<u8>, i: int, f: Field, t: FieldText, k: int)
    requires
        0 <= i,
        i + t.text(f).len() <= s.len(),
        s.subrange(i, i + t.text(f).len()) == t.text(f),
        0 <= k < 7,
    ensures
        s.subrange(i + piece_starts(f, t)[k], i + piece_starts(f, t)[k + 1]) == pieces(f, t)[k],
        forall|m: int|
            i + piece_starts(f, t)[k] <= m < i + piece_starts(f, t)[k + 1] ==> #[trigger] s[m]
                == pieces(f, t)[k][m - i - piece_starts(f, t)[k]],
{
    lemma_text_pieces(f, t);
    let ps = piece_starts(f, t);
    let piece = pieces(f, t)[k];
    lemma_piece(s, i, t.text(f), ps[k], piece);
    assert forall|m: int| i + ps[k] <= m < i + ps[k + 1] implies #[trigger] s[m] == piece[m - i
        - ps[k]] by {
        assert(s[m] == s.subrange(i + ps[k], i + ps[k + 1])[m - i - ps[k]]);
    }
}

/// The keyword of a well-formed field text at `i` in `s`, with the whitespace
/// around it, ends at the colon.
#[verifier::rlimit(40)]
proof fn lemma_field_keyword(s: Seq<u8>, i: int, f: Field, t: FieldText)
    requires
        t.well_formed(),
        0 <= i,
        i + t.text(f).len() <= s.len(),
        s.subrange(i, i + t.text(f).len()) == t.text(f),
    ensures
        keyword_end(s, i, f) == Ok::<int, int>(i + piece_starts(f, t)[3]),
        s[i + piece_starts(f, t)[3]] == ':' as u8,
{
    let ps = piece_starts(f, t);
    let kw = f.spec_keyword();
    lemma_text_pieces(f, t);
    lemma_text_piece(s, i, f, t, 0);
    lemma_text_piece(s, i, f, t, 1);
    lemma_text_piece(s, i, f, t, 2);
    lemma_text_piece(s, i, f, t, 3);
    lemma_keyword_start(f);
    assert forall|m: int| i <= m < i + ps[1] implies is_ws(#[trigger] s[m]) by {
        assert(s[m] == t.lead[m - i]);
    }
    lemma_skip_ws_run(s, i, i + ps[1]);
    assert(s[i + ps[1]] == kw[0]);
    assert(skip_ws(s, i + ps[1]) == i + ps[1]);
    lemma_matched_full(s, i + ps[1], kw, 0);
    assert forall|m: int| i + ps[2] <= m < i + ps[3] implies is_ws(#[trigger] s[m]) by {
        assert(s[m] == t.gap[m - i - ps[2]]);
    }
    lemma_skip_ws_run(s, i + ps[2], i + ps[3]);
    assert(s[i + ps[3]] == seq![':' as u8][0]);
    assert(skip_ws(s, i + ps[3]) == i + ps[3]);
}

/// The value of a well-formed field text at `i` in `s` is its number.
#[verifier::rlimit(40)]
proof fn lemma_field_value(s: Seq<u8>, i: int, f: Field, t: FieldText)
    requires
        t.well_formed(),
        0 <= i,
        i + t.text(f).len() <= s.len(),
        s.subrange(i, i + t.text(f).len()) == t.text(f),
        t.trail.len() == 0 && i + t.text(f).len() < s.len() ==> ends_number(
            s[i + t.text(f).len()],
        ),
    ensures
        value_span(s, i + piece_starts(f, t)[4]) == Ok::<(int, int, int), int>(
            (
                i + piece_starts(f, t)[5],
                i + piece_starts(f, t)[6],
                skip_ws(s, i + t.text(f).len()),
            ),
        ),
{
    let ps = piece_starts(f, t);
    lemma_text_pieces(f, t);
    lemma_text_piece(s, i, f, t, 4);
    lemma_text_piece(s, i, f, t, 5);
    lemma_text_piece(s, i, f, t, 6);
    lemma_number_first(t.number);
    assert forall|m: int| i + ps[4] <= m < i + ps[5] implies is_ws(#[trigger] s[m]) by {
        assert(s[m] == t.pad[m - i - ps[4]]);
    }
    lemma_skip_ws_run(s, i + ps[4], i + ps[5]);
    assert(s[i + ps[5]] == t.number[0]);
    assert(skip_ws(s, i + ps[5]) == i + ps[5]);
    if t.trail.len() > 0 {
        assert(s[i + ps[6]] == t.trail[0]);
    }
    lemma_number_shift(t.number, s, i + ps[5]);
    assert forall|m: int| i + ps[6] <= m < i + ps[7] implies is_ws(#[trigger] s[m]) by {
        assert(s[m] == t.trail[m - i - ps[6]]);
    }
    lemma_skip_ws_run(s, i + ps[6], i + ps[7]);
}

/// One well-formed field text, standing at `i` in `s`, reads as its number.
proof fn lemma_field_reads(s: Seq<u8>, i: int, f: Field, t: FieldText)
    requires
        t.well_formed(),
        0 <= i,
        i + t.text(f).len() <= s.len(),
        s.subrange(i, i + t.text(f).len()) == t.text(f),
        t.trail.len() == 0 && i + t.text(f).len() < s.len() ==> ends_number(
            s[i + t.text(f).len()],
        ),
    ensures
        reading_span(s, i, f) == Ok::<(int, int, int), int>(
            (
                i + t.number_start(f),
                i + t.number_start(f) + t.number.len(),
                skip_ws(s, i + t.text(f).len()),
            ),
        ),
{
    lemma_text_pieces(f, t);
    lemma_field_keyword(s, i, f, t);
    lemma_field_value(s, i, f, t);
}

/// A field text whose keyword is not that of `f` fails `f`'s reading inside
/// itself.
proof fn lemma_wrong_keyword(s: Seq<u8>, i: int, f: Field, g: Field, t: FieldText)
    requires
        t.well_formed(),
        f != g,
        0 <= i,
        i + t.text(g).len() <= s.len(),
        s.subrange(i, i + t.text(g).len()) == t.text(g),
    ensures
        reading_span(s, i, f) is Err,
        0 <= reading_span(s, i, f)->Err_0 < s.len(),
{
    let kw = g.spec_keyword();
    let text = t.text(g);
    let kw_at = i + t.lead.len();
    let gap_at = kw_at + kw.len();
    assert(text.subrange(0, t.lead.len() as int) =~= t.lead);
    assert(text.subrange(kw_at - i, gap_at - i) =~= kw);
    lemma_piece(s, i, text, 0, t.lead);
    lemma_piece(s, i, text, kw_at - i, kw);
    lemma_keyword_start(g);
    assert forall|m: int| i <= m < kw_at implies is_ws(#[trigger] s[m]) by {
        assert(s[m] == s.subrange(i, kw_at)[m - i]);
    }
    lemma_skip_ws_run(s, i, kw_at);
    assert(s[kw_at] == s.subrange(kw_at, gap_at)[0]);
    assert(skip_ws(s, kw_at) == kw_at);
    let m = lemma_keywords_differ(f, g);
    assert(s[kw_at + m] == s.subrange(kw_at, gap_at)[m]);
    lemma_matched_stops(s, kw_at, f.spec_keyword(), 0, m);
}

proof fn lemma_fields_acc(
    s: Seq<u8>,
    i: int,
    k: int,
    acc1: Seq<(int, int)>,
    acc2: Seq<(int, int)>,
)
    ensures
        (fields_from(s, i, k, acc1) is Err) == (fields_from(s, i, k, acc2) is Err),
        fields_from(s, i, k, acc1) is Err ==> fields_from(s, i, k, acc1) == fields_from(
            s,
            i,
            k,
            acc2,
        ),
        fields_from(s, i, k, acc1) is Ok ==> fields_from(s, i, k, acc1)->Ok_0.1 == fields_from(
            s,
            i,
            k,
            acc2,
        )->Ok_0.1,
    decreases 5 - k,
{
    if k < 5 {
        match reading_span(s, i, field_at(k)) {
            Ok((a, b, j)) => {
                lemma_fields_acc(s, j, k + 1, acc1.push((a, b)), acc2.push((a, b)));
            },
            Err(_) => {},
        }
    }
}

/// Well-formed fields in the expected order, standing at `i` in `s`, are read
/// one after the other: reading from `i` fails, or ends, as reading the
/// fields after them does from where they end.
proof fn lemma_fields_prefix(
    s: Seq<u8>,
    i: int,
    fs: Seq<Field>,
    ts: Seq<FieldText>,
    k: int,
    acc: Seq<(int, int)>,
)
    requires
        0 <= i,
        fs.len() == ts.len(),
        1 <= fs.len(),
        0 <= k,
        k + fs.len() <= 5,
        forall|m: int| 0 <= m < fs.len() ==> #[trigger] fs[m] == field_at(k + m),
        all_well_formed(ts),
        i + render(fs, ts).len() <= s.len(),
        s.subrange(i, i + render(fs, ts).len()) == render(fs, ts),
        ts.last().trail.len() == 0 && i + render(fs, ts).len() < s.len() ==> ends_number(
            s[i + render(fs, ts).len()],
        ),
    ensures
        ({
            let j = skip_ws(s, i + render(fs, ts).len());
            &&& (fields_from(s, i, k, acc) is Err) == (fields_from(s, j, k + fs.len(), acc) is Err)
            &&& fields_from(s, i, k, acc) is Err ==> fields_from(s, i, k, acc) == fields_from(
                s,
                j,
                k + fs.len(),
                acc,
            )
            &&& fields_from(s, i, k, acc) is Ok && k + fs.len() == 5 ==> fields_from(
                s,
                i,
                k,
                acc,
            )->Ok_0.1 == j
        }),
    decreases fs.len(),
{
    let t0 = ts[0];
    let f0 = fs[0];
    let text = t0.text(f0);
    let rest = render(fs.drop_first(), ts.drop_first());
    let whole = render(fs, ts);
    assert(whole == text + rest);
    assert(whole.subrange(0, text.len() as int) =~= text);
    lemma_piece(s, i, whole, 0, text);
    assert(t0.well_formed());
    assert(f0 == field_at(k));
    let e = i + text.len();
    if fs.len() == 1 {
        assert(rest.len() == 0) by {
            assert(fs.drop_first().len() == 0);
        }
        assert(ts.last() == t0);
        lemma_field_reads(s, i, f0, t0);
        let (a, b, j1) = (i + t0.number_start(f0), i + t0.number_start(f0) + t0.number.len(), skip_ws(s, e));
        assert(fields_from(s, i, k, acc) == fields_from(s, j1, k + 1, acc.push((a, b))));
        lemma_fields_acc(s, j1, k + 1, acc.push((a, b)), acc);
    } else {
        let fs2 = fs.drop_first();
        let ts2 = ts.drop_first();
        assert(rest.len() > 0) by {
            assert(ts2[0].well_formed());
            lemma_text_start(fs2[0], ts2[0]);
        }
        assert(whole.subrange(text.len() as int, whole.len() as int) =~= rest);
        lemma_piece(s, i, whole, text.len() as int, rest);
        assert(ts2[0].well_formed());
        lemma_text_start(fs2[0], ts2[0]);
        assert(s[e] == rest[0]) by {
            assert(s[e] == s.subrange(e, e + rest.len())[0]);
        }
        lemma_field_reads(s, i, f0, t0);
        let (a, b) = (i + t0.number_start(f0), i + t0.number_start(f0) + t0.number.len());
        let j1 = skip_ws(s, e);
        let acc1 = acc.push((a, b));
        assert(fields_from(s, i, k, acc) == fields_from(s, j1, k + 1, acc1));
        assert forall|m: int| 0 <= m < fs2.len() implies #[trigger] fs2[m] == field_at(k + 1 + m) by {
            assert(fs2[m] == fs[m + 1]);
        }
        assert(all_well_formed(ts2)) by {
            assert forall|m: int| 0 <= m < ts2.len() implies (#[trigger] ts2[m]).well_formed() by {
                assert(ts2[m] == ts[m + 1]);
            }
        }
        assert(ts2.last() == ts.last());
        lemma_fields_prefix(s, e, fs2, ts2, k + 1, acc1);
        lemma_skip_ws_bounds(s, e);
        lemma_reading_skip(s, e, field_at(k + 1));
        assert(fields_from(s, j1, k + 1, acc1) == fields_from(s, e, k + 1, acc1));
        let j = skip_ws(s, i + whole.len());
        assert(e + rest.len() == i + whole.len());
        lemma_fields_acc(s, j, k + fs.len(), acc1, acc);
    }
}

proof fn lemma_render_split(fs: Seq<Field>, ts: Seq<FieldText>, k: int)
    requires
        fs.len() == ts.len(),
        0 <= k <= fs.len(),
    ensures
        render(fs, ts) == render(fs.take(k), ts.take(k)) + render(fs.skip(k), ts.skip(k)),
    decreases k,
{
    if k == 0 {
        assert(fs.skip(0) =~= fs);
        assert(ts.skip(0) =~= ts);
        assert(render(fs.take(0), ts.take(0)) == Seq::<u8>::empty());
        assert(render(fs, ts) =~= Seq::<u8>::empty() + render(fs, ts));
    } else {
        lemma_render_split(fs.drop_first(), ts.drop_first(), k - 1);
        assert(fs.drop_first().take(k - 1) =~= fs.take(k).drop_first());
        assert(ts.drop_first().take(k - 1) =~= ts.take(k).drop_first());
        assert(fs.drop_first().skip(k - 1) =~= fs.skip(k));
        assert(ts.drop_first().skip(k - 1) =~= ts.skip(k));
        let t0 = ts[0].text(fs[0]);
        assert(render(fs.take(k), ts.take(k)) == t0 + render(fs.take(k).drop_first(), ts.take(k).drop_first()));
        assert(render(fs, ts) =~= render(fs.take(k), ts.take(k)) + render(fs.skip(k), ts.skip(k)));
    }
}

/// Where the `k`-th field text stands in the rendering of all of them.
proof fn lemma_render_at(fields: Seq<Field>, texts: Seq<FieldText>, k: int)
    requires
        fields.len() == texts.len(),
        0 <= k < fields.len(),
    ensures
        ({
            let s = render(fields, texts);
            let pre = render(fields.take(k), texts.take(k));
            let text = texts[k].text(fields[k]);
            &&& pre.len() + text.len() <= s.len()
            &&& s.subrange(0, pre.len() as int) == pre
            &&& s.subrange(pre.len() as int, (pre.len() + text.len()) as int) == text
        }),
{
    let s = render(fields, texts);
    lemma_render_split(fields, texts, k);
    let pre = render(fields.take(k), texts.take(k));
    let post = render(fields.skip(k), texts.skip(k));
    let text = texts[k].text(fields[k]);
    assert(fields.skip(k)[0] == fields[k]);
    assert(texts.skip(k)[0] == texts[k]);
    assert(post == text + render(fields.skip(k).drop_first(), texts.skip(k).drop_first()));
    assert(s.subrange(0, pre.len() as int) =~= pre);
    assert(s.subrange(pre.len() as int, (pre.len() + text.len()) as int) =~= text);
}

proof fn lemma_mismatch_at(s: Seq<u8>, k: int, p: int)
    requires
        0 <= k < 5,
        0 <= p < s.len(),
        fields_from(s, 0, 0, Seq::empty()) == Err::<(Seq<(int, int)>, int), (int, int)>((k, p)),
    ensures
        message_spans(s, 0) == Err::<Seq<(int, int)>, DecodeError>(
            DecodeError::GrammarMismatch { field: field_at(k), position: p as usize },
        ),
{
}

/// Well-formed fields whose first `k` come in the expected order and whose
/// next one is not the expected field: the grammar refuses them at that
/// field, with a byte that is there.
proof fn lemma_first_wrong_field(fields: Seq<Field>, texts: Seq<FieldText>, k: int)
    requires
        fields.len() == texts.len(),
        0 <= k < fields.len(),
        k < 5,
        forall|m: int| 0 <= m < k ==> #[trigger] fields[m] == field_at(m),
        fields[k] != field_at(k),
        all_well_formed(texts),
    ensures
        message_spans(render(fields, texts), 0) is Err,
        message_spans(render(fields, texts), 0)->Err_0 is GrammarMismatch,
        message_spans(render(fields, texts), 0)->Err_0->GrammarMismatch_field == field_at(k),
{
    let s = render(fields, texts);
    lemma_render_at(fields, texts, k);
    let pre = render(fields.take(k), texts.take(k));
    let t = texts[k];
    let g = fields[k];
    let at = pre.len() as int;
    assert(t.well_formed());
    lemma_wrong_keyword(s, at, field_at(k), g, t);
    let p = reading_span(s, at, field_at(k))->Err_0;
    lemma_skip_ws_bounds(s, at);
    lemma_reading_skip(s, at, field_at(k));
    let j = skip_ws(s, at);
    assert(fields_from(s, j, k, Seq::empty()) == Err::<(Seq<(int, int)>, int), (int, int)>((k, p)));
    if k == 0 {
        assert(at == 0);
        assert(fields_from(s, 0, 0, Seq::empty()) == Err::<(Seq<(int, int)>, int), (int, int)>((0, p)));
    } else {
        let fs = fields.take(k);
        let ts = texts.take(k);
        assert(all_well_formed(ts)) by {
            assert forall|m: int| 0 <= m < ts.len() implies (#[trigger] ts[m]).well_formed() by {
                assert(ts[m] == texts[m]);
            }
        }
        assert forall|m: int| 0 <= m < fs.len() implies #[trigger] fs[m] == field_at(0 + m) by {
            assert(fs[m] == fields[m]);
        }
        lemma_text_start(g, t);
        assert(s[at] == t.text(g)[0]) by {
            assert(s[at] == s.subrange(at, at + t.text(g).len())[0]);
        }
        lemma_fields_prefix(s, 0, fs, ts, 0, Seq::empty());
    }
    lemma_mismatch_at(s, k, p);
}

/// Order is enforced: swapping any two fields of an otherwise well-formed
/// message makes the grammar refuse it, at the first of the two, and decoding
/// the message gives that grammar mismatch.
pub proof fn lemma_order_enforced(texts: Seq<FieldText>, i: int, j: int)
    requires
        texts.len() == 5,
        all_well_formed(texts),
        0 <= i < j < 5,
    ensures
        ({
            let fields = in_order().update(i, field_at(j)).update(j, field_at(i));
            let r = message_spans(render(fields, texts), 0);
            &&& r is Err
            &&& r->Err_0 is GrammarMismatch
            &&& r->Err_0->GrammarMismatch_field == field_at(i)
            &&& decoded(render(fields, texts)) == Err::<Seq<Seq<u8>>, DecodeError>(r->Err_0)
        }),
{
    lemma_render_ascii(in_order().update(i, field_at(j)).update(j, field_at(i)), texts);
    lemma_ascii_is_utf8(render(in_order().update(i, field_at(j)).update(j, field_at(i)), texts));
    let fields = in_order().update(i, field_at(j)).update(j, field_at(i));
    assert forall|m: int| 0 <= m < i implies #[trigger] fields[m] == field_at(m) by {
        assert(in_order()[m] == field_at(m));
    }
    lemma_first_wrong_field(fields, texts, i);
}

/// A message needs all five fields: with any one of them left out, the
/// grammar refuses the rest.
pub proof fn lemma_missing_field_fails(texts: Seq<FieldText>, k: int)
    requires
        texts.len() == 4,
        all_well_formed(texts),
        0 <= k < 5,
    ensures
        message_spans(render(in_order().remove(k), texts), 0) is Err,
        decoded(render(in_order().remove(k), texts)) is Err,
{
    let fields = in_order().remove(k);
    assert forall|m: int| 0 <= m < 4 implies #[trigger] fields[m] == (if m < k {
        field_at(m)
    } else {
        field_at(m + 1)
    }) by {
        assert(in_order()[m] == field_at(m));
        assert(in_order()[m + 1] == field_at(m + 1));
    }
    if k < 4 {
        lemma_first_wrong_field(fields, texts, k);
    } else {
        let s = render(fields, texts);
        assert(s.subrange(0, s.len() as int) =~= s);
        assert forall|m: int| 0 <= m < fields.len() implies #[trigger] fields[m] == field_at(0 + m) by {}
        lemma_fields_prefix(s, 0, fields, texts, 0, Seq::empty());
        assert(skip_ws(s, s.len() as int) == s.len());
        assert(matched_len(s, s.len() as int, Field::Humidity.spec_keyword(), 0) == 0);
    }
}

/// Nothing may follow the last field: text after a well-formed message that
/// starts with a byte other than whitespace makes the grammar refuse it
/// (unless, with no whitespace after the last number, the text would carry
/// that number on).
pub proof fn lemma_trailing_text_fails(texts: Seq<FieldText>, t: Seq<u8>)
    requires
        texts.len() == 5,
        all_well_formed(texts),
        t.len() > 0,
        !is_ws(t[0]),
        texts[4].trail.len() == 0 ==> ends_number(t[0]),
    ensures
        message_spans(render(in_order(), texts) + t, 0) is Err,
        message_spans(render(in_order(), texts) + t, 0)->Err_0 is GrammarMismatch,
        decoded(render(in_order(), texts) + t) is Err,
{
    let r = render(in_order(), texts);
    let s = r + t;
    assert(s.subrange(0, r.len() as int) =~= r);
    assert forall|m: int| 0 <= m < 5 implies #[trigger] in_order()[m] == field_at(0 + m) by {}
    assert(s[r.len() as int] == t[0]);
    assert(texts.last() == texts[4]);
    lemma_fields_prefix(s, 0, in_order(), texts, 0, Seq::empty());
    assert(skip_ws(s, r.len() as int) == r.len());
}

/// Whitespace does not matter: one field written with any whitespace around
/// its keyword, its colon and its number reads as exactly that number, and
/// the whole text is taken.
pub proof fn lemma_whitespace_insensitive(f: Field, t: FieldText)
    requires
        t.well_formed(),
    ensures
        reading_span(t.text(f), 0, f) is Ok,
        ({
            let (a, b, e) = reading_span(t.text(f), 0, f)->Ok_0;
            &&& t.text(f).subrange(a, b) == t.number
            &&& e == t.text(f).len()
        }),
{
    let s = t.text(f);
    assert(s.subrange(0, s.len() as int) =~= s);
    lemma_field_reads(s, 0, f, t);
    lemma_text_pieces(f, t);
    assert(pieces(f, t)[5] == t.number);
    assert(s.subrange(piece_starts(f, t)[5], piece_starts(f, t)[6]) == t.number);
}

/// Where the numbers of the field texts lie when the texts stand at `i`.
pub open spec fn number_spans(i: int, fs: Seq<Field>, ts: Seq<FieldText>) -> Seq<(int, int)>
    decreases fs.len(),
{
    if fs.len() == 0 || ts.len() == 0 {
        Seq::empty()
    } else {
        let a = i + ts[0].number_start(fs[0]);
        seq![(a, a + ts[0].number.len())] + number_spans(
            i + ts[0].text(fs[0]).len(),
            fs.drop_first(),
            ts.drop_first(),
        )
    }
}

/// The last fields of a message, well formed and in order, standing at `i`
/// in `s`, are read with their numbers where they are.
proof fn lemma_fields_accept(
    s: Seq<u8>,
    i: int,
    fs: Seq<Field>,
    ts: Seq<FieldText>,
    k: int,
    acc: Seq<(int, int)>,
)
    requires
        0 <= i,
        fs.len() == ts.len(),
        1 <= fs.len(),
        0 <= k,
        k + fs.len() == 5,
        forall|m: int| 0 <= m < fs.len() ==> #[trigger] fs[m] == field_at(k + m),
        all_well_formed(ts),
        i + render(fs, ts).len() <= s.len(),
        s.subrange(i, i + render(fs, ts).len()) == render(fs, ts),
        ts.last().trail.len() == 0 && i + render(fs, ts).len() < s.len() ==> ends_number(
            s[i + render(fs, ts).len()],
        ),
    ensures
        fields_from(s, i, k, acc) == Ok::<(Seq<(int, int)>, int), (int, int)>(
            (acc + number_spans(i, fs, ts), skip_ws(s, i + render(fs, ts).len())),
        ),
    decreases fs.len(),
{
    let t0 = ts[0];
    let f0 = fs[0];
    let text = t0.text(f0);
    let rest = render(fs.drop_first(), ts.drop_first());
    let whole = render(fs, ts);
    assert(whole == text + rest);
    assert(whole.subrange(0, text.len() as int) =~= text);
    lemma_piece(s, i, whole, 0, text);
    assert(t0.well_formed());
    assert(f0 == field_at(k));
    let e = i + text.len();
    let a = i + t0.number_start(f0);
    let span = (a, a + t0.number.len());
    let acc1 = acc.push(span);
    if fs.len() == 1 {
        assert(rest.len() == 0) by {
            assert(fs.drop_first().len() == 0);
        }
        assert(ts.last() == t0);
        lemma_field_reads(s, i, f0, t0);
        let j1 = skip_ws(s, e);
        assert(k + 1 == 5);
        assert(fields_from(s, i, k, acc) == fields_from(s, j1, k + 1, acc1));
        assert(fields_from(s, j1, k + 1, acc1) == Ok::<(Seq<(int, int)>, int), (int, int)>(
            (acc1, j1),
        ));
        assert(fs.drop_first().len() == 0);
        assert(number_spans(e, fs.drop_first(), ts.drop_first()) == Seq::<(int, int)>::empty());
        assert(number_spans(i, fs, ts) == seq![span] + Seq::<(int, int)>::empty());
        assert(acc + number_spans(i, fs, ts) =~= acc1);
        assert(e == i + whole.len());
    } else {
        let fs2 = fs.drop_first();
        let ts2 = ts.drop_first();
        assert(ts2[0].well_formed());
        lemma_text_start(fs2[0], ts2[0]);
        assert(whole.subrange(text.len() as int, whole.len() as int) =~= rest);
        lemma_piece(s, i, whole, text.len() as int, rest);
        assert(s[e] == rest[0]) by {
            assert(s[e] == s.subrange(e, e + rest.len())[0]);
        }
        lemma_field_reads(s, i, f0, t0);
        let j1 = skip_ws(s, e);
        assert(fields_from(s, i, k, acc) == fields_from(s, j1, k + 1, acc1));
        assert forall|m: int| 0 <= m < fs2.len() implies #[trigger] fs2[m] == field_at(k + 1 + m) by {
            assert(fs2[m] == fs[m + 1]);
        }
        assert(all_well_formed(ts2)) by {
            assert forall|m: int| 0 <= m < ts2.len() implies (#[trigger] ts2[m]).well_formed() by {
                assert(ts2[m] == ts[m + 1]);
            }
        }
        assert(ts2.last() == ts.last());
        lemma_fields_accept(s, e, fs2, ts2, k + 1, acc1);
        lemma_skip_ws_bounds(s, e);
        lemma_reading_skip(s, e, field_at(k + 1));
        assert(fields_from(s, j1, k + 1, acc1) == fields_from(s, e, k + 1, acc1));
        assert(e + rest.len() == i + whole.len());
        assert(number_spans(i, fs, ts) == seq![span] + number_spans(e, fs2, ts2));
        assert(acc + number_spans(i, fs, ts) =~= acc1 + number_spans(e, fs2, ts2));
    }
}

/// The numbers of field texts standing at `i` in `s` are where
/// `number_spans` says.
proof fn lemma_number_spans_hold(s: Seq<u8>, i: int, fs: Seq<Field>, ts: Seq<FieldText>)
    requires
        0 <= i,
        fs.len() == ts.len(),
        i + render(fs, ts).len() <= s.len(),
        s.subrange(i, i + render(fs, ts).len()) == render(fs, ts),
    ensures
        number_spans(i, fs, ts).len() == fs.len(),
        forall|m: int|
            0 <= m < fs.len() ==> s.subrange(
                (#[trigger] number_spans(i, fs, ts)[m]).0,
                number_spans(i, fs, ts)[m].1,
            ) == ts[m].number,
    decreases fs.len(),
{
    if fs.len() > 0 {
        let t0 = ts[0];
        let f0 = fs[0];
        let text = t0.text(f0);
        let rest = render(fs.drop_first(), ts.drop_first());
        let whole = render(fs, ts);
        let e = i + text.len();
        assert(whole == text + rest);
        assert(whole.subrange(0, text.len() as int) =~= text);
        lemma_piece(s, i, whole, 0, text);
        assert(whole.subrange(text.len() as int, whole.len() as int) =~= rest);
        lemma_piece(s, i, whole, text.len() as int, rest);
        lemma_number_spans_hold(s, e, fs.drop_first(), ts.drop_first());
        lemma_text_pieces(f0, t0);
        lemma_text_piece(s, i, f0, t0, 5);
        assert(pieces(f0, t0)[5] == t0.number);
        let spans = number_spans(i, fs, ts);
        assert forall|m: int| 0 <= m < fs.len() implies s.subrange(
            (#[trigger] spans[m]).0,
            spans[m].1,
        ) == ts[m].number by {
            if m > 0 {
                assert(spans[m] == number_spans(e, fs.drop_first(), ts.drop_first())[m - 1]);
                assert(ts[m] == ts.drop_first()[m - 1]);
            }
        }
    }
}

/// Every well-formed message is accepted: its five fields in order, written
/// with any whitespace, give exactly their five numbers, when parsed and when
/// decoded as a frame.
pub proof fn lemma_well_formed_message_accepted(texts: Seq<FieldText>)
    requires
        texts.len() == 5,
        all_well_formed(texts),
    ensures
        message_values(render(in_order(), texts)) == Ok::<Seq<Seq<u8>>, DecodeError>(
            texts.map_values(|t: FieldText| t.number),
        ),
        decoded(render(in_order(), texts)) == message_values(render(in_order(), texts)),
{
    lemma_render_ascii(in_order(), texts);
    lemma_ascii_is_utf8(render(in_order(), texts));
    let s = render(in_order(), texts);
    assert(s.subrange(0, s.len() as int) =~= s);
    assert forall|m: int| 0 <= m < 5 implies #[trigger] in_order()[m] == field_at(0 + m) by {}
    lemma_fields_accept(s, 0, in_order(), texts, 0, Seq::empty());
    lemma_number_spans_hold(s, 0, in_order(), texts);
    assert(skip_ws(s, s.len() as int) == s.len());
    let spans = number_spans(0, in_order(), texts);
    assert(Seq::<(int, int)>::empty() + spans =~= spans);
    assert(message_spans(s, 0) == Ok::<Seq<(int, int)>, DecodeError>(spans));
    assert(spans.map_values(|p: (int, int)| s.subrange(p.0, p.1)) =~= texts.map_values(
        |t: FieldText| t.number,
    ));
}

/// Every byte of `s` is ASCII.
pub open spec fn all_ascii(s: Seq<u8>) -> bool {
    forall|m: int| 0 <= m < s.len() ==> #[trigger] s[m] < 128
}

/// ASCII text is UTF-8.
pub proof fn lemma_ascii_is_utf8(s: Seq<u8>)
    requires
        all_ascii(s),
    ensures
        valid_utf8(s),
    decreases s.len(),
{
    if s.len() > 0 {
        let b = s[0];
        assert(b < 128);
        assert(b & 0x7f <= 0x7f) by (bit_vector);
        let rest = s.subrange(1, s.len() as int);
        assert(all_ascii(rest)) by {
            assert forall|m: int| 0 <= m < rest.len() implies #[trigger] rest[m] < 128 by {
                assert(rest[m] == s[m + 1]);
            }
        }
        lemma_ascii_is_utf8(rest);
        assert(pop_first_scalar(s) == rest);
    }
}

proof fn lemma_skip_digits_all(s: Seq<u8>, i: int)
    requires
        0 <= i <= s.len(),
    ensures
        forall|m: int| i <= m < skip_digits(s, i) ==> is_digit(#[trigger] s[m]),
    decreases s.len() - i,
{
    if i < s.len() && is_digit(s[i]) {
        lemma_skip_digits_all(s, i + 1);
    }
}

/// A byte that can stand in a number.
pub open spec fn is_number_byte(b: u8) -> bool {
    is_digit(b) || is_sign(b) || b == '.' as u8 || is_exponent_mark(b)
}

proof fn lemma_exponent_bytes(s: Seq<u8>, e: int)
    requires
        0 <= e <= s.len(),
    ensures
        e <= exponent_end(s, e) <= s.len(),
        forall|m: int| e <= m < exponent_end(s, e) ==> is_number_byte(#[trigger] s[m]),
{
    if e < s.len() && is_exponent_mark(s[e]) {
        let f = if e + 1 < s.len() && is_sign(s[e + 1]) {
            e + 2
        } else {
            e + 1
        };
        lemma_skip_digits_all(s, f);
        lemma_skip_digits_bounds(s, f);
    }
}

proof fn lemma_number_bytes(n: Seq<u8>)
    requires
        is_number(n),
    ensures
        forall|m: int| 0 <= m < n.len() ==> is_number_byte(#[trigger] n[m]),
{
    let a: int = if 0 < n.len() && is_sign(n[0]) {
        1
    } else {
        0
    };
    lemma_skip_digits_all(n, a);
    lemma_skip_digits_bounds(n, a);
    let b = skip_digits(n, a);
    if b > a {
        if b < n.len() && n[b] == '.' as u8 {
            lemma_skip_digits_all(n, b + 1);
            lemma_skip_digits_bounds(n, b + 1);
            lemma_exponent_bytes(n, skip_digits(n, b + 1));
        } else {
            lemma_exponent_bytes(n, b);
        }
    } else if a < n.len() && n[a] == '.' as u8 {
        lemma_skip_digits_all(n, a + 1);
        lemma_skip_digits_bounds(n, a + 1);
        lemma_exponent_bytes(n, skip_digits(n, a + 1));
    }
}

proof fn lemma_keyword_ascii(f: Field)
    ensures
        all_ascii(f.spec_keyword()),
{
    let kw = f.spec_keyword();
    assert forall|m: int| 0 <= m < kw.len() implies #[trigger] kw[m] < 128 by {
        assert('z' as u8 == 122);
    }
}

proof fn lemma_text_ascii(f: Field, t: FieldText)
    requires
        t.well_formed(),
    ensures
        all_ascii(t.text(f)),
{
    lemma_keyword_ascii(f);
    lemma_number_bytes(t.number);
    lemma_text_pieces(f, t);
    let text = t.text(f);
    let ps = piece_starts(f, t);
    assert forall|m: int| 0 <= m < text.len() implies #[trigger] text[m] < 128 by {
        let k: int = if m < ps[1] {
            0
        } else if m < ps[2] {
            1
        } else if m < ps[3] {
            2
        } else if m < ps[4] {
            3
        } else if m < ps[5] {
            4
        } else if m < ps[6] {
            5
        } else {
            6
        };
        assert(ps[k + 1] == ps[k] + pieces(f, t)[k].len());
        assert(ps[k] <= m < ps[k + 1]);
        assert(text[m] == text.subrange(ps[k], ps[k + 1])[m - ps[k]]);
        assert(text.subrange(ps[k], ps[k + 1]) == pieces(f, t)[k]);
    }
}

proof fn lemma_render_ascii(fs: Seq<Field>, ts: Seq<FieldText>)
    requires
        all_well_formed(ts),
    ensures
        all_ascii(render(fs, ts)),
    decreases fs.len(),
{
    if fs.len() > 0 && ts.len() > 0 {
        assert(ts[0].well_formed());
        lemma_text_ascii(fs[0], ts[0]);
        assert(all_well_formed(ts.drop_first())) by {
            assert forall|m: int| 0 <= m < ts.drop_first().len() implies (
            #[trigger] ts.drop_first()[m]).well_formed() by {
                assert(ts.drop_first()[m] == ts[m + 1]);
            }
        }
        lemma_render_ascii(fs.drop_first(), ts.drop_first());
        let a = ts[0].text(fs[0]);
        let b = render(fs.drop_first(), ts.drop_first());
        assert forall|m: int| 0 <= m < (a + b).len() implies #[trigger] (a + b)[m] < 128 by {
            if m >= a.len() {
                assert((a + b)[m] == b[m - a.len()]);
            }
        }
    }
}

} // verus!
