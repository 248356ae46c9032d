//! What the formatters share: how an interpolation is written back (its raw
//! `{...}` source), and the error for one that has none.
use vstd::prelude::*;

use crate::cursor::FragmentView;
use crate::syntax::{
    error_shape, expression_label_of, find_interpolation, BackendError, ErrorKind, SourceSpan,
    TemplateInput, TemplateSegment,
};
use crate::text::{copy_str, debug_str, push_char, push_str, str_debug};

verus! {

/// Why formatting stops: the interpolation index and span of the first
/// interpolation without raw source text, and where it stands (such as
/// `TOML key`, `JSON value` or `JSON string fragment`).
pub type FormatFailure = (usize, SourceSpan, Seq<char>);

/// What formatting a part gives: its text, or the first failure.
pub type Formatted = Result<Seq<char>, FormatFailure>;

/// The digit char for a value below ten.
pub open spec fn digit_char(d: nat) -> char {
    ('0' as int + d) as char
}

/// A number written in decimal.
pub open spec fn decimal(n: nat) -> Seq<char>
    decreases n,
{
    if n < 10 {
        seq![digit_char(n)]
    } else {
        decimal(n / 10).push(digit_char(n % 10))
    }
}

/// What messages call the interpolation with the given index: its
/// expression label, or `slot <index>` when the template has none.
pub open spec fn interpolation_name(segments: Seq<TemplateSegment>, index: usize) -> Seq<char> {
    match find_interpolation(segments, index) {
        Some(i) => expression_label_of(i),
        None => "slot "@ + decimal(index as nat),
    }
}

/// The message for an interpolation that has no raw source text.
pub open spec fn missing_raw_message(
    segments: Seq<TemplateSegment>,
    index: usize,
    context: Seq<char>,
) -> Seq<char> {
    "Cannot format "@ + context + " interpolation "@ + str_debug(interpolation_name(segments, index))
        + " without raw source text."@
}

/// `e` is the error, with the given code, that formatting reports for the
/// failure `f`.
pub open spec fn format_error_as(
    code: Seq<char>,
    e: BackendError,
    segments: Seq<TemplateSegment>,
    f: FormatFailure,
) -> bool {
    error_shape(e, ErrorKind::Semantic, code, missing_raw_message(segments, f.0, f.2), Some(f.1))
}

/// `r` is what formatting should give, with `spec` as its text or failure and
/// `code` as the code of its error.
pub open spec fn format_result_as(
    code: Seq<char>,
    r: Result<String, BackendError>,
    segments: Seq<TemplateSegment>,
    spec: Formatted,
) -> bool {
    match spec {
        Ok(t) => r matches Ok(x) && x@ == t,
        Err(f) => r matches Err(e) && format_error_as(code, e, segments, f),
    }
}


/// The raw source text of the interpolation with the given index, placed as
/// `context` at `span`.
pub open spec fn raw_text(
    segments: Seq<TemplateSegment>,
    index: usize,
    span: SourceSpan,
    context: Seq<char>,
) -> Formatted {
    match find_interpolation(segments, index) {
        Some(i) => match i.raw_source {
            Some(raw) => Ok(raw@),
            None => Err((index, span, context)),
        },
        None => Err((index, span, context)),
    }
}


/// Whether the interpolation with the given index has raw source text.
pub open spec fn has_raw(segments: Seq<TemplateSegment>, index: usize) -> bool {
    match find_interpolation(segments, index) {
        Some(i) => i.raw_source is Some,
        None => false,
    }
}

/// Whether every interpolation among a string's pieces has raw source text.
pub open spec fn pieces_raw(segments: Seq<TemplateSegment>, parts: Seq<FragmentView>) -> bool {
    forall|k: int|
        0 <= k < parts.len() ==> (#[trigger] parts[k] matches FragmentView::Slot(iv) ==> has_raw(
            segments,
            iv.interpolation_index,
        ))
}

fn digit_text(d: usize) -> (r: char)
    requires
        d < 10,
    ensures
        r == digit_char(d as nat),
{
    if d == 0 {
        '0'
    } else if d == 1 {
        '1'
    } else if d == 2 {
        '2'
    } else if d == 3 {
        '3'
    } else if d == 4 {
        '4'
    } else if d == 5 {
        '5'
    } else if d == 6 {
        '6'
    } else if d == 7 {
        '7'
    } else if d == 8 {
        '8'
    } else {
        '9'
    }
}

/// A number written in decimal.
pub fn decimal_text(n: usize) -> (r: String)
    ensures
        r@ == decimal(n as nat),
    decreases n,
{
    if n < 10 {
        let mut t = String::new();
        push_char(&mut t, digit_text(n));
        assert(t@ =~= decimal(n as nat));
        t
    } else {
        let mut t = decimal_text(n / 10);
        push_char(&mut t, digit_text(n % 10));
        t
    }
}

/// The raw source text of an interpolation, or the error with the given
/// code that names it when it has none.
pub(crate) fn interpolation_raw_source_as(
    code: &str,
    template: &TemplateInput,
    interpolation_index: usize,
    span: &SourceSpan,
    context: &str,
) -> (r: Result<String, BackendError>)
    ensures
        format_result_as(
            code@,
            r,
            template.segments@,
            raw_text(template.segments@, interpolation_index, *span, context@),
        ),
{
    match template.interpolation_raw_source(interpolation_index) {
        Some(raw) => Ok(copy_str(raw)),
        None => {
            let expression = match template.interpolation(interpolation_index) {
                Some(value) => copy_str(value.expression_label()),
                None => {
                    let mut t = copy_str("slot ");
                    push_str(&mut t, decimal_text(interpolation_index).as_str());
                    t
                },
            };
            let mut message = copy_str("Cannot format ");
            push_str(&mut message, context);
            push_str(&mut message, " interpolation ");
            push_str(&mut message, debug_str(expression.as_str()).as_str());
            push_str(&mut message, " without raw source text.");
            Err(BackendError::semantic_at(code, message.as_str(), Some(*span)))
        },
    }
}



/// Texts joined with a separator between each two.
pub open spec fn separated(xs: Seq<Seq<char>>, sep: Seq<char>) -> Seq<char>
    decreases xs.len(),
{
    if xs.len() == 0 {
        seq![]
    } else if xs.len() == 1 {
        xs[0]
    } else {
        xs[0] + sep + separated(xs.drop_first(), sep)
    }
}

/// Adding a text at the end adds the separator and the text.
pub proof fn lemma_separated_push(xs: Seq<Seq<char>>, sep: Seq<char>, x: Seq<char>)
    requires
        xs.len() >= 1,
    ensures
        separated(xs.push(x), sep) == separated(xs, sep) + sep + x,
    decreases xs.len(),
{
    let ys = xs.push(x);
    assert(ys[0] == xs[0]);
    if xs.len() == 1 {
        assert(ys.drop_first() =~= seq![x]);
        assert(separated(ys.drop_first(), sep) == x);
        assert(separated(ys, sep) == xs[0] + sep + x);
    } else {
        lemma_separated_push(xs.drop_first(), sep, x);
        assert(ys.drop_first() =~= xs.drop_first().push(x));
        let r = separated(xs.drop_first(), sep);
        assert(separated(ys, sep) == xs[0] + sep + (r + sep + x));
        assert(separated(xs, sep) == xs[0] + sep + r);
        assert(xs[0] + sep + (r + sep + x) =~= (xs[0] + sep + r) + sep + x);
    }
}

/// The number a run of decimal digits stands for.
pub open spec fn digits_number(t: Seq<char>) -> int
    decreases t.len(),
{
    if t.len() == 0 {
        0
    } else {
        digits_number(t.drop_last()) * 10 + (t.last() as int - '0' as int)
    }
}

/// A number written in decimal is a run of digits, without a leading zero
/// unless it is zero itself, that stands for the number.
pub proof fn law_decimal_reads_back(n: nat)
    ensures
        decimal(n).len() >= 1,
        forall|k: int| 0 <= k < decimal(n).len() ==> '0' <= #[trigger] decimal(n)[k] <= '9',
        n > 0 ==> decimal(n)[0] != '0',
        digits_number(decimal(n)) == n,
    decreases n,
{
    if n >= 10 {
        let q = n / 10;
        let r = n % 10;
        law_decimal_reads_back(q);
        let d = decimal(q);
        assert(decimal(n) == d.push(digit_char(r)));
        assert(decimal(n).drop_last() =~= d);
        assert(n == q * 10 + r) by (nonlinear_arith)
            requires
                q == n / 10,
                r == n % 10,
        ;
        assert forall|k: int| 0 <= k < decimal(n).len() implies '0' <= #[trigger] decimal(n)[k]
            <= '9' by {
            if k < d.len() {
                assert(decimal(n)[k] == d[k]);
            }
        }
        assert(q > 0);
        assert(decimal(n)[0] == d[0]);
        assert(digit_char(r) as int == '0' as int + r);
        assert(digits_number(decimal(n)) == digits_number(d) * 10 + r);
    } else {
        assert(digit_char(n) as int == '0' as int + n);
        assert(decimal(n).drop_last() =~= Seq::<char>::empty());
        assert(digits_number(decimal(n)) == digits_number(Seq::<char>::empty()) * 10 + n);
    }
}
} // verus!
