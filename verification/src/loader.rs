//! Reading labelled feature vectors from the lines of a delimited text.
//!
//! The first line of a dataset is a header. Every other line is one record:
//! decimal integers separated by commas, the first of them the label and the
//! others the feature values.

use vstd::prelude::*;
use vstd::string::StringSliceAdditionalSpecFns;
use vstd::utf8::encode_utf8;
use crate::example::{is_uniform, Example, ExampleView};

verus! {

/// The byte that separates the fields of a record.
pub const SEPARATOR: u8 = 44;

/// The byte `b` is one of the decimal digits `0` to `9`.
pub open spec fn is_digit(b: u8) -> bool {
    48 <= b <= 57
}

/// Every byte of `s` is a decimal digit.
pub open spec fn all_digits(s: Seq<u8>) -> bool {
    forall|i: int| 0 <= i < s.len() ==> is_digit(#[trigger] s[i])
}

/// The number that the decimal digits `s` write, the most significant digit
/// first.
pub open spec fn digits_value(s: Seq<u8>) -> int
    decreases s.len(),
{
    if s.len() == 0 {
        0
    } else {
        10 * digits_value(s.drop_last()) + (s.last() - 48)
    }
}

/// The field `s` begins with a sign, `+` or `-`.
pub open spec fn has_sign(s: Seq<u8>) -> bool {
    s.len() > 0 && (s[0] == 43 || s[0] == 45)
}

/// The digits of the field `s`: the field without its sign, if it has one.
pub open spec fn field_digits(s: Seq<u8>) -> Seq<u8> {
    if has_sign(s) {
        s.skip(1)
    } else {
        s
    }
}

/// The number that the field `s` writes, if its digits are decimal digits:
/// the value of the digits, negated after a `-`.
pub open spec fn signed_value(s: Seq<u8>) -> int {
    if s.len() > 0 && s[0] == 45 {
        -digits_value(field_digits(s))
    } else {
        digits_value(field_digits(s))
    }
}

/// The integer that the field `s` holds. A field is an optional sign, `+` or
/// `-`, followed by one or more decimal digits and nothing else, and its
/// number must be an `i32`.
pub open spec fn field_value(s: Seq<u8>) -> Option<i32> {
    if field_digits(s).len() > 0 && all_digits(field_digits(s)) && i32::MIN <= signed_value(s)
        <= i32::MAX {
        Some(signed_value(s) as i32)
    } else {
        None
    }
}

/// Appending digits to a number never makes it smaller, and a number
/// written with digits is never negative.
pub proof fn lemma_digits_value_monotonic(s: Seq<u8>, n: int)
    requires
        all_digits(s),
        0 <= n <= s.len(),
    ensures
        0 <= digits_value(s.take(n)) <= digits_value(s),
    decreases s.len() - n,
{
    if n == s.len() {
        assert(s.take(n) =~= s);
        lemma_digits_value_nonnegative(s);
    } else {
        lemma_digits_value_monotonic(s, n + 1);
        assert(s.take(n + 1).drop_last() =~= s.take(n));
        assert(is_digit(s[n]));
        assert(s.take(n + 1).last() == s[n]);
        lemma_digits_value_nonnegative(s.take(n));
    }
}

/// A number written with digits is never negative.
pub proof fn lemma_digits_value_nonnegative(s: Seq<u8>)
    requires
        all_digits(s),
    ensures
        0 <= digits_value(s),
    decreases s.len(),
{
    if s.len() > 0 {
        assert(is_digit(s.last()));
        lemma_digits_value_nonnegative(s.drop_last());
    }
}

/// Reads one field.
///
/// Returns the integer that the field holds, or `None` where the bytes are
/// not an optional sign followed by decimal digits, or write a number that
/// is no `i32`.
pub fn parse_field(field: &[u8]) -> (r: Option<i32>)
    ensures
        r == field_value(field@),
{
    assert(field@.subrange(0, field@.len() as int) =~= field@);
    parse_field_within(field, 0, field.len())
}

/// Reads the bytes of `line` from `start` up to `end` as one field.
fn parse_field_within(line: &[u8], start: usize, end: usize) -> (r: Option<i32>)
    requires
        start <= end <= line.len(),
    ensures
        r == field_value(line@.subrange(start as int, end as int)),
{
    let ghost field = line@.subrange(start as int, end as int);
    if start == end {
        return None;
    }
    let negative: bool = line[start] == 45;
    let first: usize = if line[start] == 43 || line[start] == 45 {
        start + 1
    } else {
        start
    };
    let ghost digits = field_digits(field);
    assert(digits =~= line@.subrange(first as int, end as int));
    if first == end {
        return None;
    }
    let mut magnitude: i64 = 0;
    let mut i: usize = first;
    while i < end
        invariant
            start <= first <= i <= end <= line.len(),
            field == line@.subrange(start as int, end as int),
            digits == field_digits(field),
            digits == line@.subrange(first as int, end as int),
            negative == (field[0] == 45),
            all_digits(digits.take(i - first)),
            magnitude == digits_value(digits.take(i - first)),
            0 <= magnitude <= 0x8000_0000,
        decreases end - i,
    {
        let b: u8 = line[i];
        assert(digits[i - first] == b);
        if b < 48 || b > 57 {
            assert(!is_digit(digits[i - first]));
            return None;
        }
        let ghost before = digits.take(i - first);
        let ghost after = digits.take(i - first + 1);
        assert(after.drop_last() =~= before);
        assert(after.last() == b);
        assert forall|j: int| 0 <= j < after.len() implies is_digit(#[trigger] after[j]) by {
            if j < before.len() {
                assert(after[j] == before[j]);
            }
        }
        magnitude = magnitude * 10 + (b - 48) as i64;
        if magnitude > 0x8000_0000 {
            proof {
                if all_digits(digits) {
                    lemma_digits_value_monotonic(digits, i - first + 1);
                }
            }
            return None;
        }
        i = i + 1;
    }
    assert(digits.take(end - first) =~= digits);
    if negative {
        Some((-magnitude) as i32)
    } else if magnitude > 0x7fff_ffff {
        None
    } else {
        Some(magnitude as i32)
    }
}

/// The fields of a line: the stretches of bytes between its separators, in
/// order. A line without a separator is one field, and the empty line is
/// one empty field.
pub open spec fn split_fields(line: Seq<u8>) -> Seq<Seq<u8>>
    decreases line.len(),
{
    if line.len() == 0 {
        seq![Seq::<u8>::empty()]
    } else {
        let earlier = split_fields(line.drop_last());
        if line.last() == SEPARATOR {
            earlier.push(Seq::<u8>::empty())
        } else {
            earlier.update(earlier.len() - 1, earlier.last().push(line.last()))
        }
    }
}

/// Every field of the line holds an integer.
pub open spec fn all_fields_valid(fields: Seq<Seq<u8>>) -> bool {
    forall|k: int| 0 <= k < fields.len() ==> field_value(#[trigger] fields[k]) is Some
}

/// The record that a line writes, if every field of it holds an integer:
/// the first field is the label, the others are the feature values.
pub open spec fn record_of(line: Seq<u8>) -> Option<ExampleView> {
    let fields = split_fields(line);
    if all_fields_valid(fields) {
        Some(
            ExampleView {
                label: field_value(fields[0]).unwrap(),
                pixels: Seq::new(
                    (fields.len() - 1) as nat,
                    |k: int| field_value(fields[k + 1]).unwrap(),
                ),
            },
        )
    } else {
        None
    }
}

/// A line has at least one field.
pub proof fn lemma_split_fields_nonempty(line: Seq<u8>)
    ensures
        split_fields(line).len() >= 1,
    decreases line.len(),
{
    if line.len() > 0 {
        lemma_split_fields_nonempty(line.drop_last());
    }
}

/// The fields of the first `n` bytes of a line, but for the last of them,
/// are fields of the whole line, at the same positions: what follows a
/// separator does not change the fields before it.
pub proof fn lemma_split_fields_prefix(line: Seq<u8>, n: int)
    requires
        0 <= n <= line.len(),
    ensures
        1 <= split_fields(line.take(n)).len() <= split_fields(line).len(),
        forall|k: int|
            0 <= k < split_fields(line.take(n)).len() - 1 ==> split_fields(line)[k]
                == #[trigger] split_fields(line.take(n))[k],
    decreases line.len(),
{
    lemma_split_fields_nonempty(line.take(n));
    if n == line.len() {
        assert(line.take(n) =~= line);
    } else {
        lemma_split_fields_prefix(line.drop_last(), n);
        assert(line.drop_last().take(n) =~= line.take(n));
    }
}

/// The line that a sequence of fields writes: the fields in order, with one
/// separator between each two of them.
pub open spec fn join_fields(fields: Seq<Seq<u8>>) -> Seq<u8>
    decreases fields.len(),
{
    if fields.len() == 0 {
        Seq::<u8>::empty()
    } else if fields.len() == 1 {
        fields[0]
    } else {
        join_fields(fields.drop_last()).push(SEPARATOR) + fields.last()
    }
}

/// Splitting loses nothing and cuts at every separator: the fields of a
/// line, joined by separators, are the line again, and no field holds a
/// separator.
pub proof fn lemma_split_fields_joins_back(line: Seq<u8>)
    ensures
        join_fields(split_fields(line)) == line,
        forall|k: int, i: int|
            0 <= k < split_fields(line).len() && 0 <= i < split_fields(line)[k].len()
                ==> #[trigger] split_fields(line)[k][i] != SEPARATOR,
    decreases line.len(),
{
    let fields = split_fields(line);
    if line.len() == 0 {
        assert(join_fields(fields) =~= line);
    } else {
        let front = line.drop_last();
        let earlier = split_fields(front);
        lemma_split_fields_joins_back(front);
        lemma_split_fields_nonempty(front);
        if line.last() == SEPARATOR {
            assert(fields.drop_last() =~= earlier);
            assert(join_fields(fields) =~= front.push(SEPARATOR));
            assert(front.push(SEPARATOR) =~= line);
            assert forall|k: int, i: int|
                0 <= k < fields.len() && 0 <= i < fields[k].len() implies #[trigger] fields[k][i]
                != SEPARATOR by {
                assert(fields[k] == earlier[k]);
                assert(earlier[k][i] != SEPARATOR);
            }
        } else {
            let grown = earlier.last().push(line.last());
            assert(fields.last() == grown);
            if earlier.len() == 1 {
                assert(join_fields(earlier) == earlier[0]);
                assert(join_fields(fields) =~= front.push(line.last()));
            } else {
                assert(fields.drop_last() =~= earlier.drop_last());
                assert(join_fields(fields) =~= join_fields(earlier).push(line.last()));
            }
            assert(front.push(line.last()) =~= line);
            assert forall|k: int, i: int|
                0 <= k < fields.len() && 0 <= i < fields[k].len() implies #[trigger] fields[k][i]
                != SEPARATOR by {
                if k < earlier.len() - 1 {
                    assert(fields[k] == earlier[k]);
                    assert(earlier[k][i] != SEPARATOR);
                } else if i < earlier.last().len() {
                    assert(fields[k][i] == earlier[k][i]);
                    assert(earlier[k][i] != SEPARATOR);
                }
            }
        }
    }
}

/// Reads one line as a record.
///
/// Returns the record that the line writes, or `None` where one of its
/// fields holds no integer.
pub fn parse_record(line: &str) -> (r: Option<Example>)
    ensures
        match r {
            Some(example) => record_of(encode_utf8(line@)) == Some(example@),
            None => record_of(encode_utf8(line@)) is None,
        },
{
    let bytes: &[u8] = line.as_bytes();
    let n: usize = bytes.len();
    let mut values: Vec<i32> = Vec::new();
    let ghost mut done: Seq<Seq<u8>> = Seq::empty();
    let mut start: usize = 0;
    let mut i: usize = 0;
    proof {
        assert(bytes@.take(0).len() == 0);
        assert(bytes@.subrange(0, 0) =~= Seq::<u8>::empty());
        assert(split_fields(bytes@.take(0)) =~= done.push(bytes@.subrange(0, 0)));
    }
    while i < n
        invariant
            bytes@ == encode_utf8(line@),
            n == bytes.len(),
            start <= i <= n,
            split_fields(bytes@.take(i as int)) == done.push(
                bytes@.subrange(start as int, i as int),
            ),
            values.len() == done.len(),
            forall|k: int|
                0 <= k < done.len() ==> field_value(#[trigger] done[k]) == Some(values[k]),
        decreases n - i,
    {
        let ghost current = bytes@.subrange(start as int, i as int);
        let ghost earlier = split_fields(bytes@.take(i as int));
        proof {
            assert(bytes@.take(i + 1).drop_last() =~= bytes@.take(i as int));
            assert(bytes@.take(i + 1).last() == bytes[i as int]);
        }
        if bytes[i] == SEPARATOR {
            assert(split_fields(bytes@.take(i + 1)) == earlier.push(Seq::<u8>::empty()));
            match parse_field_within(bytes, start, i) {
                Some(value) => {
                    values.push(value);
                },
                None => {
                    proof {
                        lemma_split_fields_prefix(bytes@, i + 1);
                        let fields = split_fields(bytes@);
                        let k: int = done.len() as int;
                        assert(split_fields(bytes@.take(i + 1))[k] == current);
                        assert(fields[k] == current);
                        assert(field_value(fields[k]) is None);
                    }
                    return None;
                },
            }
            proof {
                done = done.push(current);
                assert(bytes@.subrange(i + 1, i + 1) =~= Seq::<u8>::empty());
            }
            start = i + 1;
        } else {
            proof {
                assert(current.push(bytes[i as int]) =~= bytes@.subrange(
                    start as int,
                    i + 1,
                ));
                assert(earlier.update(earlier.len() - 1, earlier.last().push(bytes[i as int]))
                    =~= done.push(bytes@.subrange(start as int, i + 1)));
            }
        }
        i = i + 1;
    }
    let ghost fields = split_fields(bytes@);
    let ghost current = bytes@.subrange(start as int, n as int);
    assert(bytes@.take(n as int) =~= bytes@);
    assert(fields == done.push(current));
    match parse_field_within(bytes, start, n) {
        Some(value) => {
            values.push(value);
        },
        None => {
            assert(fields[done.len() as int] == current);
            assert(field_value(fields[done.len() as int]) is None);
            return None;
        },
    }
    assert forall|k: int| 0 <= k < fields.len() implies field_value(#[trigger] fields[k])
        == Some(values[k]) by {
        if k < done.len() {
            assert(fields[k] == done[k]);
        }
    }
    let label: i32 = values.remove(0);
    let example = Example { label, pixels: values };
    assert(example@.pixels =~= record_of(bytes@).unwrap().pixels);
    Some(example)
}

/// Why the lines of a dataset could not be read.
#[derive(Clone, Copy, Debug, PartialEq, Eq, Structural)]
pub enum LoadError {
    /// A field of the line at this position holds no integer.
    InvalidRecord { line: usize },
    /// The record at this position has another number of feature values
    /// than the first record of the dataset.
    WidthMismatch { line: usize },
}

impl LoadError {
    /// The position of the line that the error is about, counted from zero
    /// with the header at position zero.
    pub open spec fn spec_line(self) -> usize {
        match self {
            LoadError::InvalidRecord { line } => line,
            LoadError::WidthMismatch { line } => line,
        }
    }

    /// The position of the line that the error is about, counted from zero
    /// with the header at position zero.
    pub fn line(&self) -> (n: usize)
        ensures
            n == self.spec_line(),
    {
        match self {
            LoadError::InvalidRecord { line } => *line,
            LoadError::WidthMismatch { line } => *line,
        }
    }
}

/// The record that the line at position `i` writes, if it writes one.
pub open spec fn record_at(lines: Seq<Seq<char>>, i: int) -> Option<ExampleView> {
    record_of(encode_utf8(lines[i]))
}

/// What is wrong with the line at position `i`, if anything: it writes no
/// record, or its record has another number of feature values than the
/// record of the first line after the header.
pub open spec fn fault_at(lines: Seq<Seq<char>>, i: int) -> Option<LoadError> {
    match record_at(lines, i) {
        None => Some(LoadError::InvalidRecord { line: i as usize }),
        Some(record) => {
            if record_at(lines, 1) matches Some(first) && first.pixels.len()
                != record.pixels.len() {
                Some(LoadError::WidthMismatch { line: i as usize })
            } else {
                None
            }
        },
    }
}

/// Reads a dataset from its lines.
///
/// The first line is the header and is not looked at. Every other line
/// must write a record with as many feature values as the first record has;
/// the records are returned in the order of their lines. The first line
/// that fails ends the reading with its error. No line, or the header
/// alone, is the empty dataset.
pub fn parse_dataset(lines: &Vec<String>) -> (r: Result<Vec<Example>, LoadError>)
    ensures
        match r {
            Ok(examples) => {
                &&& forall|i: int|
                    1 <= i < lines.len() ==> #[trigger] fault_at(lines.deep_view(), i) is None
                &&& lines.len() == 0 ==> examples.len() == 0
                &&& lines.len() > 0 ==> examples.len() == lines.len() - 1
                &&& forall|k: int|
                    0 <= k < examples.len() ==> record_at(lines.deep_view(), k + 1) == Some(
                        #[trigger] examples.deep_view()[k],
                    )
                &&& is_uniform(examples.deep_view())
            },
            Err(e) => {
                &&& 1 <= e.spec_line() < lines.len()
                &&& fault_at(lines.deep_view(), e.spec_line() as int) == Some(e)
                &&& forall|j: int|
                    1 <= j < e.spec_line() ==> #[trigger] fault_at(lines.deep_view(), j) is None
            },
        },
{
    let ghost text = lines.deep_view();
    let n: usize = lines.len();
    let mut examples: Vec<Example> = Vec::new();
    let mut i: usize = 1;
    while i < n
        invariant
            n == lines.len(),
            text == lines.deep_view(),
            1 <= i,
            i <= n || (n == 0 && i == 1),
            examples.len() == i - 1,
            forall|j: int| 1 <= j < i ==> #[trigger] fault_at(text, j) is None,
            forall|k: int|
                0 <= k < examples.len() ==> record_at(text, k + 1) == Some(
                    #[trigger] examples.deep_view()[k],
                ),
        decreases n - i,
    {
        assert(text[i as int] == lines[i as int]@);
        let example: Example = match parse_record(lines[i].as_str()) {
            Some(example) => example,
            None => {
                return Err(LoadError::InvalidRecord { line: i });
            },
        };
        if examples.len() > 0 {
            assert(record_at(text, 1) == Some(examples.deep_view()[0]));
            assert(examples.deep_view()[0].pixels == examples[0].pixels@);
            if example.pixels.len() != examples[0].pixels.len() {
                return Err(LoadError::WidthMismatch { line: i });
            }
        }
        let ghost before = examples.deep_view();
        let ghost added = example@;
        examples.push(example);
        proof {
            assert(examples.deep_view()[i - 1] == added);
            assert forall|k: int| 0 <= k < examples.len() implies record_at(text, k + 1) == Some(
                #[trigger] examples.deep_view()[k],
            ) by {
                if k < i - 1 {
                    assert(examples.deep_view()[k] == before[k]);
                }
            }
        }
        i = i + 1;
    }
    proof {
        let records = examples.deep_view();
        assert forall|a: int, b: int|
            0 <= a < records.len() && 0 <= b < records.len() implies (#[trigger] records[a]).pixels.len()
            == (#[trigger] records[b]).pixels.len() by {
            assert(fault_at(text, a + 1) is None);
            assert(fault_at(text, b + 1) is None);
            assert(record_at(text, 1) == Some(records[0]));
        }
    }
    Ok(examples)
}

} // verus!
