//! Display text for vectors, matrices and measurements.

use vstd::prelude::*;
use colored::Colorize;
use crate::instruction::{matrix_view, Measurement};
use crate::numeric::{amp_parts_text, Amplitude};

verus! {

/// The items, with the separator between each two.
pub open spec fn joined(items: Seq<Seq<char>>, sep: Seq<char>) -> Seq<char>
    decreases items.len(),
{
    if items.len() == 0 {
        Seq::empty()
    } else if items.len() == 1 {
        items[0]
    } else {
        joined(items.drop_last(), sep) + sep + items.last()
    }
}

/// The text holds no escape character.
pub open spec fn no_escape(text: Seq<char>) -> bool {
    forall|i: int| 0 <= i < text.len() ==> text[i] != '\x1b'
}

/// `out` is `text` in bold: `text` itself where styling is switched off, and
/// `text` between the escape sequences for bold and for reset where it is on.
pub open spec fn is_bold(text: Seq<char>, out: Seq<char>) -> bool {
    out == text || out == "\x1b[1m"@ + text + "\x1b[0m"@
}

/// Appends `tail` to `text`, with `String::push_str`. The contract claims what
/// the documentation of the standard library says: the new text is the old
/// one followed by `tail`.
#[verifier::external_body]
pub(crate) fn push_str(text: &mut String, tail: &str)
    ensures
        final(text)@ == old(text)@ + tail@,
{
    text.push_str(tail)
}

/// `text` in bold, with `Colorize::bold` of the crate `colored`, written out
/// with `to_string`. Whether the crate styles at all depends on the terminal
/// and the environment, so the contract allows both: the text as it is, or
/// the text between the escape sequence for bold and the one for reset. A text
/// that holds an escape character is left out, since the crate then looks for
/// reset sequences inside it.
#[verifier::external_body]
fn bold(text: &str) -> (r: String)
    requires
        no_escape(text@),
    ensures
        is_bold(text@, r@),
{
    text.bold().to_string()
}

/// `text` without styling, with `Colorize::normal` of the crate `colored`,
/// written out with `to_string`. The crate writes a text that has neither
/// colour nor style as it is.
#[verifier::external_body]
fn plain(text: &str) -> (r: String)
    ensures
        r@ == text@,
{
    text.normal().to_string()
}

/// Whether two texts are the same.
fn same_text(a: &str, b: &str) -> (r: bool)
    ensures
        r == (a@ == b@),
{
    let x = a.to_owned();
    let y = b.to_owned();
    x == y
}

/// A number text without the sign of a negative zero: `"-0.000"` becomes
/// `"0.000"`, and every other text stays.
pub open spec fn corrected(text: Seq<char>) -> Seq<char> {
    if text == "-0.000"@ {
        "0.000"@
    } else {
        text
    }
}

/// Takes the sign off a negative zero.
pub fn correct(str: &str) -> (r: &str)
    ensures
        r@ == corrected(str@),
{
    if same_text(str, "-0.000") {
        "0.000"
    } else {
        str
    }
}

/// `cell` is the display text of a number whose real and imaginary part read
/// `re` and `im`: zero, one and the imaginary unit are short and bold; a part
/// that reads zero is left out; the imaginary part is followed by `i`.
pub open spec fn is_cell(re: Seq<char>, im: Seq<char>, cell: Seq<char>) -> bool {
    if re == "0.000"@ && im == "0.000"@ {
        is_bold("  0  "@, cell)
    } else if re == "1.000"@ && im == "0.000"@ {
        is_bold("  1  "@, cell)
    } else if re == "0.000"@ && im == "1.000"@ {
        is_bold("  i  "@, cell)
    } else if im == "0.000"@ {
        cell == re
    } else if re == "0.000"@ {
        cell == im + "i"@
    } else {
        cell == re + " + "@ + im + "i"@
    }
}

/// `part` holds the texts of the real and the imaginary part of `a`, each
/// corrected.
pub open spec fn is_part<A: Amplitude>(a: A, part: (Seq<char>, Seq<char>)) -> bool {
    exists|re: Seq<char>, im: Seq<char>|
        #[trigger] amp_parts_text(a, re, im) && part == (corrected(re), corrected(im))
}

/// `parts` holds, for each amplitude, the texts of its real and imaginary
/// part, corrected.
pub open spec fn is_parts<A: Amplitude>(
    tensor: Seq<A>,
    parts: Seq<(Seq<char>, Seq<char>)>,
) -> bool {
    &&& parts.len() == tensor.len()
    &&& forall|k: int| 0 <= k < tensor.len() ==> is_part(tensor[k], #[trigger] parts[k])
}

/// `cells` holds the display text of each number.
pub open spec fn is_cells(parts: Seq<(Seq<char>, Seq<char>)>, cells: Seq<Seq<char>>) -> bool {
    &&& cells.len() == parts.len()
    &&& forall|k: int| 0 <= k < parts.len() ==> is_cell(parts[k].0, parts[k].1, #[trigger] cells[k])
}

/// The parts read as the basis state zero of one qubit.
pub open spec fn reads_ket_zero(parts: Seq<(Seq<char>, Seq<char>)>) -> bool {
    parts.len() == 2 && parts[0] == ("1.000"@, "0.000"@) && parts[1] == ("0.000"@, "0.000"@)
}

/// The parts read as the basis state one of one qubit.
pub open spec fn reads_ket_one(parts: Seq<(Seq<char>, Seq<char>)>) -> bool {
    parts.len() == 2 && parts[0] == ("0.000"@, "0.000"@) && parts[1] == ("1.000"@, "0.000"@)
}

/// `text` is the display text of a vector whose numbers read `parts`: a ket
/// for a basis state of one qubit, and otherwise the numbers between square
/// brackets, separated by a comma and a blank.
pub open spec fn is_layout(parts: Seq<(Seq<char>, Seq<char>)>, text: Seq<char>) -> bool {
    if reads_ket_zero(parts) {
        text == "      |0⟩     "@
    } else if reads_ket_one(parts) {
        text == "      |1⟩     "@
    } else {
        exists|cells: Seq<Seq<char>>| #[trigger]
            is_cells(parts, cells) && text == "["@ + joined(cells, ", "@) + "]"@
    }
}

/// `text` is a display text of the vector.
pub open spec fn renders<A: Amplitude>(tensor: Seq<A>, text: Seq<char>) -> bool {
    exists|parts: Seq<(Seq<char>, Seq<char>)>| #[trigger]
        is_parts(tensor, parts) && is_layout(parts, text)
}

/// The display text of one number.
fn cell_text(re: &String, im: &String) -> (cell: String)
    ensures
        is_cell(re@, im@, cell@),
{
    let re_zero = same_text(re.as_str(), "0.000");
    let re_one = same_text(re.as_str(), "1.000");
    let im_zero = same_text(im.as_str(), "0.000");
    let im_one = same_text(im.as_str(), "1.000");
    proof {
        reveal_strlit("  0  ");
        reveal_strlit("  1  ");
        reveal_strlit("  i  ");
    }
    if re_zero && im_zero {
        bold("  0  ")
    } else if re_one && im_zero {
        bold("  1  ")
    } else if re_zero && im_one {
        bold("  i  ")
    } else if im_zero {
        plain(re.as_str())
    } else if re_zero {
        let mut text = im.clone();
        push_str(&mut text, "i");
        plain(text.as_str())
    } else {
        let mut text = re.clone();
        push_str(&mut text, " + ");
        push_str(&mut text, im.as_str());
        push_str(&mut text, "i");
        plain(text.as_str())
    }
}

/// The items, with the separator between each two.
pub fn join(items: &Vec<String>, sep: &str) -> (text: String)
    ensures
        text@ == joined(texts(items@), sep@),
{
    let mut text = String::new();
    let mut k: usize = 0;
    while k < items.len()
        invariant
            k <= items.len(),
            text@ == joined(texts(items@).take(k as int), sep@),
        decreases items.len() - k,
    {
        proof {
            let longer = texts(items@).take(k + 1);
            assert(longer.drop_last() =~= texts(items@).take(k as int));
            assert(longer.last() == items@[k as int]@);
            if k == 0 {
                assert(Seq::<char>::empty() + items@[0]@ =~= items@[0]@);
            }
        }
        if k > 0 {
            push_str(&mut text, sep);
        }
        push_str(&mut text, items[k].as_str());
        k += 1;
    }
    assert(texts(items@).take(items.len() as int) =~= texts(items@));
    text
}

/// The texts of a list of strings.
pub open spec fn texts(items: Seq<String>) -> Seq<Seq<char>> {
    Seq::new(items.len(), |k: int| items[k]@)
}

/// The display text of a vector: a ket for a basis state of one qubit, and
/// otherwise its numbers between square brackets.
pub fn print_tensor<A: Amplitude>(tensor: &Vec<A>) -> (text: String)
    ensures
        renders(tensor@, text@),
{
    let mut reals: Vec<String> = Vec::new();
    let mut imags: Vec<String> = Vec::new();
    let ghost mut parts: Seq<(Seq<char>, Seq<char>)> = Seq::empty();
    let mut k: usize = 0;
    while k < tensor.len()
        invariant
            k <= tensor.len(),
            reals.len() == k,
            imags.len() == k,
            parts.len() == k,
            forall|j: int| 0 <= j < k ==> #[trigger] parts[j] == (reals[j]@, imags[j]@),
            forall|j: int| 0 <= j < k ==> is_part(tensor[j], #[trigger] parts[j]),
        decreases tensor.len() - k,
    {
        let written = tensor[k].parts_text();
        let re = correct(written.0.as_str()).to_owned();
        let im = correct(written.1.as_str()).to_owned();
        proof {
            assert(amp_parts_text(tensor[k as int], written.0@, written.1@));
            assert(is_part(tensor[k as int], (re@, im@)));
            parts = parts.push((re@, im@));
        }
        reals.push(re);
        imags.push(im);
        k += 1;
    }
    assert(is_parts(tensor@, parts));
    if tensor.len() == 2 {
        let first_is_one = same_text(reals[0].as_str(), "1.000") && same_text(
            imags[0].as_str(),
            "0.000",
        );
        let first_is_zero = same_text(reals[0].as_str(), "0.000") && same_text(
            imags[0].as_str(),
            "0.000",
        );
        let second_is_one = same_text(reals[1].as_str(), "1.000") && same_text(
            imags[1].as_str(),
            "0.000",
        );
        let second_is_zero = same_text(reals[1].as_str(), "0.000") && same_text(
            imags[1].as_str(),
            "0.000",
        );
        if first_is_one && second_is_zero {
            assert(reads_ket_zero(parts));
            return "      |0⟩     ".to_owned();
        }
        if first_is_zero && second_is_one {
            assert(reads_ket_one(parts));
            proof {
                lemma_one_is_not_zero();
            }
            return "      |1⟩     ".to_owned();
        }
        proof {
            lemma_one_is_not_zero();
        }
    }
    let mut cells: Vec<String> = Vec::new();
    let mut j: usize = 0;
    while j < tensor.len()
        invariant
            j <= tensor.len(),
            reals.len() == tensor.len(),
            imags.len() == tensor.len(),
            parts.len() == tensor.len(),
            forall|i: int| 0 <= i < tensor.len() ==> #[trigger] parts[i] == (reals[i]@, imags[i]@),
            cells.len() == j,
            forall|i: int| 0 <= i < j ==> is_cell(parts[i].0, parts[i].1, (#[trigger] cells[i])@),
        decreases tensor.len() - j,
    {
        let cell = cell_text(&reals[j], &imags[j]);
        cells.push(cell);
        j += 1;
    }
    let mut text = "[".to_owned();
    let body = join(&cells, ", ");
    push_str(&mut text, body.as_str());
    push_str(&mut text, "]");
    assert(is_cells(parts, texts(cells@)));
    text
}

/// `rows` holds a display text of each row.
pub open spec fn renders_rows<A: Amplitude>(matrix: Seq<Seq<A>>, rows: Seq<Seq<char>>) -> bool {
    &&& rows.len() == matrix.len()
    &&& forall|k: int| 0 <= k < matrix.len() ==> renders(matrix[k], #[trigger] rows[k])
}

/// `text` is a display text of the matrix: `before`, then a display text of
/// each row with `between` between each two, then `after`.
pub open spec fn renders_matrix<A: Amplitude>(
    matrix: Seq<Seq<A>>,
    before: Seq<char>,
    between: Seq<char>,
    after: Seq<char>,
    text: Seq<char>,
) -> bool {
    exists|rows: Seq<Seq<char>>| #[trigger]
        renders_rows(matrix, rows) && text == before + joined(rows, between) + after
}

/// The display text of each row of a matrix.
fn row_texts<A: Amplitude>(matrix: &Vec<Vec<A>>) -> (rows: Vec<String>)
    ensures
        renders_rows(matrix_view(*matrix), texts(rows@)),
{
    let mut rows: Vec<String> = Vec::new();
    let mut k: usize = 0;
    while k < matrix.len()
        invariant
            k <= matrix.len(),
            rows.len() == k,
            forall|j: int| 0 <= j < k ==> renders(matrix[j]@, (#[trigger] rows[j])@),
        decreases matrix.len() - k,
    {
        rows.push(print_tensor(&matrix[k]));
        k += 1;
    }
    rows
}

/// The display text of a matrix, one row to a line: an opening bracket, the
/// rows indented by four blanks and separated by a comma and a blank at the
/// end of the line, and a closing bracket on a line of its own.
pub fn print_matrix<A: Amplitude>(matrix: &Vec<Vec<A>>) -> (text: String)
    ensures
        renders_matrix(matrix_view(*matrix), "[\n    "@, ", \n    "@, "\n]"@, text@),
{
    let rows = row_texts(matrix);
    let mut text = "[\n    ".to_owned();
    let body = join(&rows, ", \n    ");
    push_str(&mut text, body.as_str());
    push_str(&mut text, "\n]");
    text
}

/// The display text of a matrix on one line: the rows between square
/// brackets, separated by a comma and a blank.
pub fn print_matrix_without_breaklines<A: Amplitude>(matrix: &Vec<Vec<A>>) -> (text: String)
    ensures
        renders_matrix(matrix_view(*matrix), "["@, ", "@, "]"@, text@),
{
    let rows = row_texts(matrix);
    let mut text = "[".to_owned();
    let body = join(&rows, ", ");
    push_str(&mut text, body.as_str());
    push_str(&mut text, "]");
    text
}

/// The text of one decimal digit.
pub open spec fn digit_text(d: nat) -> Seq<char> {
    if d == 0 {
        "0"@
    } else if d == 1 {
        "1"@
    } else if d == 2 {
        "2"@
    } else if d == 3 {
        "3"@
    } else if d == 4 {
        "4"@
    } else if d == 5 {
        "5"@
    } else if d == 6 {
        "6"@
    } else if d == 7 {
        "7"@
    } else if d == 8 {
        "8"@
    } else {
        "9"@
    }
}

/// A natural number in decimal digits, without leading zeros.
pub open spec fn decimal(n: nat) -> Seq<char>
    decreases n,
{
    if n < 10 {
        digit_text(n)
    } else {
        decimal(n / 10) + digit_text(n % 10)
    }
}

/// The text of one decimal digit.
fn digit(d: usize) -> (r: &'static str)
    requires
        d < 10,
    ensures
        r@ == digit_text(d as nat),
{
    if d == 0 {
        "0"
    } else if d == 1 {
        "1"
    } else if d == 2 {
        "2"
    } else if d == 3 {
        "3"
    } else if d == 4 {
        "4"
    } else if d == 5 {
        "5"
    } else if d == 6 {
        "6"
    } else if d == 7 {
        "7"
    } else if d == 8 {
        "8"
    } else {
        "9"
    }
}

/// A number in decimal digits.
pub fn decimal_text(n: usize) -> (text: String)
    ensures
        text@ == decimal(n as nat),
    decreases n,
{
    if n < 10 {
        digit(n).to_owned()
    } else {
        let mut text = decimal_text(n / 10);
        push_str(&mut text, digit(n % 10));
        text
    }
}

/// The text of a measurement: the qubit, a colon and a blank, and the
/// outcome, `true` set off by one more blank so that both outcomes are equally
/// wide.
pub open spec fn measurement_text(m: Measurement) -> Seq<char> {
    decimal(m.0 as nat) + ": "@ + if m.1 {
        " true"@
    } else {
        "false"@
    }
}

/// The texts of a list of measurements.
pub open spec fn measurement_texts(list: Seq<Measurement>) -> Seq<Seq<char>> {
    Seq::new(list.len(), |k: int| measurement_text(list[k]))
}

/// The text of a list of measurements: the measurements between square
/// brackets, separated by a comma and a blank.
pub open spec fn outcome_key(list: Seq<Measurement>) -> Seq<char> {
    "["@ + joined(measurement_texts(list), ", "@) + "]"@
}

impl Measurement {
    /// The text of the measurement.
    pub fn text(&self) -> (text: String)
        ensures
            text@ == measurement_text(*self),
    {
        let mut text = decimal_text(self.0);
        push_str(&mut text, ": ");
        if self.1 {
            push_str(&mut text, " true");
        } else {
            push_str(&mut text, "false");
        }
        text
    }
}

/// The text of each measurement of a list.
pub fn measurement_strings(list: &Vec<Measurement>) -> (items: Vec<String>)
    ensures
        texts(items@) == measurement_texts(list@),
{
    let mut items: Vec<String> = Vec::new();
    let mut k: usize = 0;
    while k < list.len()
        invariant
            k <= list.len(),
            items.len() == k,
            forall|j: int| 0 <= j < k ==> (#[trigger] items[j])@ == measurement_text(list[j]),
        decreases list.len() - k,
    {
        items.push(list[k].text());
        k += 1;
    }
    assert(texts(items@) =~= measurement_texts(list@));
    items
}

/// The text of a list of measurements, by which runs are told apart.
pub fn key_text(list: &Vec<Measurement>) -> (text: String)
    ensures
        text@ == outcome_key(list@),
{
    let items = measurement_strings(list);
    let mut text = "[".to_owned();
    let body = join(&items, ", ");
    push_str(&mut text, body.as_str());
    push_str(&mut text, "]");
    text
}

/// The texts for zero and for one differ.
proof fn lemma_one_is_not_zero()
    ensures
        "1.000"@ != "0.000"@,
{
    reveal_strlit("1.000");
    reveal_strlit("0.000");
    assert("1.000"@[0] == '1');
    assert("0.000"@[0] == '0');
}

} // verus!
