//! How numbers and texts are written.

use crate::double::{Double, INFINITY_BITS, SIGN_BIT};
use crate::metrics::opt_view;
use crate::text::{chars_of, decimal, decimal_text, views};
use vstd::prelude::*;
use vstd::string::*;

verus! {

/// The numbers in decimal notation with six digits after the point.
pub type Notation = spec_fn(Double) -> Seq<char>;

/// The function writes any number.
pub open spec fn writes_all<N: Fn(Double) -> String>(notation: N) -> bool {
    forall|value: Double| #[trigger] call_requires(notation, (value,))
}

/// The function writes numbers in the given notation.
pub open spec fn writes<N: Fn(Double) -> String>(notation: N, fixed: Notation) -> bool {
    forall|value: Double, text: String| #[trigger]
        call_ensures(notation, (value,), text) ==> text@ == fixed(value)
}

/// A text without the zeros at its end.
pub open spec fn without_zeros(text: Seq<char>) -> Seq<char>
    decreases text.len(),
{
    if text.len() > 0 && text.last() == '0' {
        without_zeros(text.drop_last())
    } else {
        text
    }
}

/// A decimal fraction without the zeros at its end, and without its point where no
/// digit is left behind it.
pub open spec fn trimmed(text: Seq<char>) -> Seq<char> {
    if !text.contains('.') {
        text
    } else {
        let short = without_zeros(text);
        if short.last() == '.' {
            short.drop_last()
        } else {
            short
        }
    }
}

/// A number as it is written: infinities by name, others without needless digits.
pub open spec fn number_text(value: Double, fixed: Notation) -> Seq<char> {
    if value.bits == INFINITY_BITS {
        "inf"@
    } else if value.bits == SIGN_BIT + INFINITY_BITS {
        "-inf"@
    } else {
        trimmed(fixed(value))
    }
}

/// Whether a list of characters holds a point.
fn has_point(chars: &Vec<char>) -> (r: bool)
    ensures
        r == chars@.contains('.'),
{
    let mut i: usize = 0;
    while i < chars.len()
        invariant
            i <= chars@.len(),
            forall|k: int| 0 <= k < i ==> chars@[k] != '.',
        decreases chars@.len() - i,
    {
        if chars[i] == '.' {
            return true;
        }
        i += 1;
    }
    false
}

/// The string of some characters.
fn text_of(chars: &Vec<char>) -> (text: String)
    ensures
        text@ == chars@,
{
    let mut text = String::new();
    let mut i: usize = 0;
    while i < chars.len()
        invariant
            i <= chars@.len(),
            text@ == chars@.take(i as int),
        decreases chars@.len() - i,
    {
        text.push(chars[i]);
        assert(text@ =~= chars@.take(i + 1));
        i += 1;
    }
    assert(text@ =~= chars@);
    text
}

/// A text that holds a point still does without the zeros at its end.
proof fn lemma_point_stays(text: Seq<char>)
    requires
        text.contains('.'),
    ensures
        without_zeros(text).contains('.'),
        without_zeros(text).len() > 0,
        without_zeros(text).last() != '0',
    decreases text.len(),
{
    let i = choose|i: int| 0 <= i < text.len() && text[i] == '.';
    if text.last() == '0' {
        assert(text.drop_last()[i] == '.');
        lemma_point_stays(text.drop_last());
    }
}

/// A decimal fraction without needless digits.
fn trim(text: &str) -> (short: String)
    ensures
        short@ == trimmed(text@),
{
    let mut chars = chars_of(text);
    if has_point(&chars) {
        proof {
            lemma_point_stays(text@);
        }
        while chars.len() > 0 && chars[chars.len() - 1] == '0'
            invariant
                without_zeros(chars@) == without_zeros(text@),
            decreases chars@.len(),
        {
            let ghost before = chars@;
            chars.pop();
            assert(chars@ =~= before.drop_last());
        }
        assert(chars@ == without_zeros(text@));
        if chars[chars.len() - 1] == '.' {
            chars.pop();
            assert(chars@ =~= without_zeros(text@).drop_last());
        }
    }
    text_of(&chars)
}

/// Writes a number, given a function that writes it with six digits after the point.
pub fn fmt<N: Fn(Double) -> String>(value: Double, notation: &N) -> (text: String)
    requires
        writes_all(*notation),
    ensures
        forall|w: Notation| #[trigger] writes(*notation, w) ==> text@ == number_text(value, w),
{
    if value.to_bits() == INFINITY_BITS {
        return "inf".to_owned();
    }
    if value.to_bits() == SIGN_BIT + INFINITY_BITS {
        return "-inf".to_owned();
    }
    assert(call_requires(*notation, (value,)));
    let fixed = notation(value);
    trim(fixed.as_str())
}

/// The zeros that a text ends with.
pub open spec fn all_zeros(text: Seq<char>) -> bool {
    forall|i: int| 0 <= i < text.len() ==> #[trigger] text[i] == '0'
}

/// A text is what is left without its zeros, and the zeros.
proof fn lemma_zeros_split(text: Seq<char>)
    ensures
        without_zeros(text).len() <= text.len(),
        text.take(without_zeros(text).len() as int) == without_zeros(text),
        all_zeros(text.skip(without_zeros(text).len() as int)),
    decreases text.len(),
{
    let short = without_zeros(text);
    if text.len() > 0 && text.last() == '0' {
        let rest = text.drop_last();
        lemma_zeros_split(rest);
        let n = short.len() as int;
        assert(text.take(n) =~= rest.take(n));
        let tail = text.skip(n);
        assert forall|i: int| 0 <= i < tail.len() implies #[trigger] tail[i] == '0' by {
            if i < tail.len() - 1 {
                assert(rest.skip(n)[i] == tail[i]);
            }
        }
    } else {
        assert(text.take(text.len() as int) =~= text);
    }
}

/// Law: a fraction is written without needless digits. What is left out is zeros
/// behind the point, and the point if nothing else is behind it.
pub proof fn law_fractions_are_compact(fixed: Seq<char>)
    requires
        fixed.contains('.'),
    ensures
        ({
            let short = trimmed(fixed);
            let n = short.len() as int;
            &&& short == fixed.take(n)
            &&& ({
                ||| short.len() > 0 && short.last() != '0' && short.contains('.') && all_zeros(
                    fixed.skip(n),
                )
                ||| fixed[n] == '.' && all_zeros(fixed.skip(n + 1))
            })
        }),
{
    lemma_point_stays(fixed);
    lemma_zeros_split(fixed);
    let stripped = without_zeros(fixed);
    if stripped.last() == '.' {
        let n = stripped.len() - 1;
        assert(fixed.take(n) =~= stripped.drop_last());
        assert(fixed[n] == stripped[n]);
    }
}

/// A number that may be missing, as it is written.
pub open spec fn opt_number_text(value: Option<Double>, fixed: Notation) -> Seq<char> {
    match value {
        Some(value) => number_text(value, fixed),
        None => ""@,
    }
}

/// Writes a number, or nothing where it is missing.
pub fn fmt_opt<N: Fn(Double) -> String>(value: Option<Double>, notation: &N) -> (text: String)
    requires
        writes_all(*notation),
    ensures
        forall|w: Notation| #[trigger]
            writes(*notation, w) ==> text@ == opt_number_text(value, w),
{
    match value {
        Some(value) => fmt(value, notation),
        None => "".to_owned(),
    }
}

/// An integer that may be missing, as it is written.
pub open spec fn opt_integer_text(value: Option<u64>) -> Seq<char> {
    match value {
        Some(value) => decimal(value as nat),
        None => ""@,
    }
}

/// Writes an integer, or nothing where it is missing.
pub fn fmt_opt_u64(value: Option<u64>) -> (text: String)
    ensures
        text@ == opt_integer_text(value),
{
    match value {
        Some(value) => decimal_text(value),
        None => "".to_owned(),
    }
}

/// A text that may be missing.
pub open spec fn text_or_empty(text: Option<Seq<char>>) -> Seq<char> {
    match text {
        Some(text) => text,
        None => ""@,
    }
}

/// A text, or nothing where it is missing.
pub fn opt_text(text: &Option<String>) -> (result: String)
    ensures
        result@ == text_or_empty(opt_view(*text)),
{
    match text {
        Some(text) => text.clone(),
        None => "".to_owned(),
    }
}

/// A truth value in words.
pub open spec fn bool_name(value: bool) -> Seq<char> {
    if value {
        "true"@
    } else {
        "false"@
    }
}

/// A truth value in words.
pub fn bool_text(value: bool) -> (text: String)
    ensures
        text@ == bool_name(value),
{
    if value {
        "true".to_owned()
    } else {
        "false".to_owned()
    }
}

/// Law: what is missing is written as nothing, and never as zero.
pub proof fn law_missing_is_empty(fixed: Notation)
    ensures
        opt_number_text(None, fixed) == Seq::<char>::empty(),
        opt_integer_text(None) == Seq::<char>::empty(),
        text_or_empty(None) == Seq::<char>::empty(),
{
    reveal_strlit("");
    assert(""@ =~= Seq::<char>::empty());
}

/// Texts one after another.
pub open spec fn concatenated(parts: Seq<Seq<char>>) -> Seq<char>
    decreases parts.len(),
{
    if parts.len() == 0 {
        Seq::empty()
    } else {
        concatenated(parts.drop_last()) + parts.last()
    }
}

/// Puts texts one after another.
pub fn concatenate(parts: &Vec<String>) -> (text: String)
    ensures
        text@ == concatenated(views(parts@)),
{
    let mut text = String::new();
    let mut i: usize = 0;
    while i < parts.len()
        invariant
            i <= parts@.len(),
            text@ == concatenated(views(parts@).take(i as int)),
        decreases parts@.len() - i,
    {
        assert(views(parts@).take(i + 1).drop_last() =~= views(parts@).take(i as int));
        text.append(parts[i].as_str());
        i += 1;
    }
    assert(views(parts@).take(parts@.len() as int) =~= views(parts@));
    text
}

/// The text of a table cell in Markdown: bars are escaped, and line breaks become
/// spaces.
pub open spec fn markdown_char(c: char) -> Seq<char> {
    if c == '|' {
        seq!['\\', '|']
    } else if c == '\r' || c == '\n' {
        seq![' ']
    } else {
        seq![c]
    }
}

/// A text for a table cell in Markdown.
pub open spec fn markdown_text(text: Seq<char>) -> Seq<char>
    decreases text.len(),
{
    if text.len() == 0 {
        Seq::empty()
    } else {
        markdown_text(text.drop_last()) + markdown_char(text.last())
    }
}

/// Writes a text for a table cell in Markdown.
pub fn markdown(value: &str) -> (text: String)
    ensures
        text@ == markdown_text(value@),
{
    let chars = chars_of(value);
    let mut text = String::new();
    let mut i: usize = 0;
    while i < chars.len()
        invariant
            chars@ == value@,
            i <= chars@.len(),
            text@ == markdown_text(value@.take(i as int)),
        decreases chars@.len() - i,
    {
        assert(value@.take(i + 1).drop_last() =~= value@.take(i as int));
        let ghost before = text@;
        let c = chars[i];
        if c == '|' {
            text.push('\\');
            text.push('|');
        } else if c == '\r' || c == '\n' {
            text.push(' ');
        } else {
            text.push(c);
        }
        assert(text@ =~= before + markdown_char(c));
        i += 1;
    }
    assert(value@.take(value@.len() as int) =~= value@);
    text
}

/// Law: a text for a table cell stays on its line, and each of its bars is escaped.
pub proof fn law_markdown_cells_are_escaped(text: Seq<char>, i: int)
    requires
        0 <= i < markdown_text(text).len(),
    ensures
        markdown_text(text)[i] != '\r',
        markdown_text(text)[i] != '\n',
        markdown_text(text)[i] == '|' ==> i > 0 && markdown_text(text)[i - 1] == '\\',
    decreases text.len(),
{
    let before = markdown_text(text.drop_last());
    if i < before.len() {
        law_markdown_cells_are_escaped(text.drop_last(), i);
    }
}

/// Law: a text without bars and line breaks stays as it is.
pub proof fn law_plain_text_stays(text: Seq<char>)
    requires
        forall|i: int|
            0 <= i < text.len() ==> (#[trigger] text[i]) != '|' && text[i] != '\r' && text[i]
                != '\n',
    ensures
        markdown_text(text) == text,
    decreases text.len(),
{
    if text.len() > 0 {
        law_plain_text_stays(text.drop_last());
        assert(text.last() == text[text.len() - 1]);
    }
    assert(markdown_text(text) =~= text);
}

/// Law: infinities are written by name, numbers without a point as they are, and those with
/// one without the zeros at their end.
pub proof fn law_numbers_are_written(value: Double, fixed: Notation)
    ensures
        value.bits == INFINITY_BITS ==> number_text(value, fixed) == "inf"@,
        value.bits == SIGN_BIT + INFINITY_BITS ==> number_text(value, fixed) == "-inf"@,
        !value.infinite() && !fixed(value).contains('.') ==> number_text(value, fixed) == fixed(
            value,
        ),
        !value.infinite() ==> number_text(value, fixed) == trimmed(fixed(value)),
        opt_number_text(Some(value), fixed) == number_text(value, fixed),
{
}

/// Law: truth values, integers and texts are written as they are.
pub proof fn law_plain_values_are_written(value: u64, text: Seq<char>)
    ensures
        opt_integer_text(Some(value)) == decimal(value as nat),
        text_or_empty(Some(text)) == text,
        bool_name(true) == "true"@,
        bool_name(false) == "false"@,
{
}

/// Law: in a table cell a bar gets a backslash before it, line breaks become spaces, and
/// all other characters stay, each in its place.
pub proof fn law_cells_are_written_by_character(text: Seq<char>, c: char)
    ensures
        markdown_text(Seq::empty()) == Seq::<char>::empty(),
        c == '|' ==> markdown_text(text.push(c)) == markdown_text(text) + seq!['\\', '|'],
        c == '\r' || c == '\n' ==> markdown_text(text.push(c)) == markdown_text(text) + seq![' '],
        c != '|' && c != '\r' && c != '\n' ==> markdown_text(text.push(c)) == markdown_text(text)
            + seq![c],
{
    assert(text.push(c).drop_last() =~= text);
}

/// Law: texts are put one after another.
pub proof fn law_texts_follow_each_other(x: Seq<Seq<char>>, y: Seq<Seq<char>>)
    ensures
        concatenated(x + y) == concatenated(x) + concatenated(y),
        x.len() == 1 ==> concatenated(x) == x[0],
    decreases y.len(),
{
    if x.len() == 1 {
        assert(concatenated(x.drop_last()) =~= Seq::<char>::empty());
        assert(concatenated(x) =~= x[0]);
    }
    if y.len() == 0 {
        assert(x + y =~= x);
        assert(concatenated(x) + concatenated(y) =~= concatenated(x));
    } else {
        assert((x + y).drop_last() =~= x + y.drop_last());
        law_texts_follow_each_other(x, y.drop_last());
        assert(concatenated(x + y) =~= concatenated(x) + concatenated(y));
    }
}

/// Law: a decimal fraction with one point is not left with that point at its end.
pub proof fn law_no_point_is_left(fixed: Seq<char>, point: int)
    requires
        0 < point < fixed.len(),
        fixed[point] == '.',
        forall|i: int| 0 <= i < fixed.len() && i != point ==> (#[trigger] fixed[i]) != '.',
    ensures
        trimmed(fixed).len() > 0,
        trimmed(fixed).last() != '.',
{
    assert(fixed.contains('.'));
    lemma_point_stays(fixed);
    lemma_zeros_split(fixed);
    let stripped = without_zeros(fixed);
    let n = stripped.len() - 1;
    assert(stripped[n] == fixed[n]);
    let i = choose|i: int| 0 <= i < stripped.len() && stripped[i] == '.';
    assert(fixed[i] == stripped[i]);
    if stripped.last() == '.' {
        assert(n == point);
        assert(stripped.drop_last()[n - 1] == fixed[n - 1]);
    }
}

} // verus!
