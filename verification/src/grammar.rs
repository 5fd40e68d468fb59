//! The field grammar: the text of one generation unit, and its meaning as a
//! list of fields.
//!
//! ```text
//! unit       := { entry }
//! entry      := { annotation } [ type "," ] identifier ":" direction numbers ";"
//! annotation := "///" text-to-the-end-of-the-line | "#[" text-without-"]" "]"
//! direction  := "r" | "w" | "rw" | "tr"
//! numbers    := number { "," number }
//! ```
//!
//! `type`, `identifier` and `direction` are identifiers, a `number` is a run
//! of decimal digits, and blanks, tabs and line ends may stand between any two
//! tokens. An entry with a type is a range field and takes `lsb, msb` or
//! `byte, lsb, msb`; one without is a single-bit field and takes `bit` or
//! `byte, bit`. A byte index left out is 0. `tr` is for range fields only.
//!
//! [`parse_fields`] is the meaning of a text from a position on; [`parse`]
//! computes it.

use vstd::prelude::*;

use crate::field::{
    field_models, Direction, FieldModel, FieldSpec, GenerationError, Position,
};
use crate::text::{
    copy_range, digit, identifier_part, identifier_start, is_digit, is_identifier,
    is_identifier_part, is_identifier_start, is_space, lines_view, optional_view, space,
};

verus! {

pub const COMMA: u8 = 0x2c;

pub const COLON: u8 = 0x3a;

pub const SEMICOLON: u8 = 0x3b;

pub const SLASH: u8 = 0x2f;

pub const HASH: u8 = 0x23;

pub const OPEN_BRACKET: u8 = 0x5b;

pub const CLOSE_BRACKET: u8 = 0x5d;

pub const LINE_FEED: u8 = 0x0a;

pub const LETTER_R: u8 = 0x72;

pub const LETTER_T: u8 = 0x74;

pub const LETTER_W: u8 = 0x77;

pub const DIGIT_ZERO: u8 = 0x30;

/// The sets of bytes that a token or a gap is a run of.
#[derive(Clone, Copy, Debug, PartialEq, Eq, Structural)]
pub enum CharClass {
    /// Blanks, tabs and line ends.
    Space,
    /// Letters, digits and `_`.
    IdentifierPart,
    /// Decimal digits.
    Digit,
    /// Everything but a line feed: the text of a `///` annotation.
    CommentText,
    /// Everything but `]`: the text of a `#[` annotation.
    AttributeText,
}

impl CharClass {
    /// Whether `c` belongs to the class.
    pub open spec fn contains(self, c: u8) -> bool {
        match self {
            CharClass::Space => is_space(c),
            CharClass::IdentifierPart => is_identifier_part(c),
            CharClass::Digit => is_digit(c),
            CharClass::CommentText => c != LINE_FEED,
            CharClass::AttributeText => c != CLOSE_BRACKET,
        }
    }

    /// Whether `c` belongs to the class.
    pub fn has(&self, c: u8) -> (yes: bool)
        ensures
            yes == self.contains(c),
    {
        match self {
            CharClass::Space => space(c),
            CharClass::IdentifierPart => identifier_part(c),
            CharClass::Digit => digit(c),
            CharClass::CommentText => c != LINE_FEED,
            CharClass::AttributeText => c != CLOSE_BRACKET,
        }
    }
}

/// The end of the longest run of bytes of `class` that starts at `i`.
pub open spec fn run_end(s: Seq<u8>, i: int, class: CharClass) -> int
    decreases s.len() - i,
{
    if 0 <= i < s.len() && class.contains(s[i]) {
        run_end(s, i + 1, class)
    } else {
        i
    }
}

/// A run ends in the text, holds bytes of its class only, and stops at the
/// first byte that is not of the class.
pub proof fn lemma_run_end(s: Seq<u8>, i: int, class: CharClass)
    requires
        0 <= i <= s.len(),
    ensures
        i <= run_end(s, i, class) <= s.len(),
        forall|k: int| i <= k < run_end(s, i, class) ==> class.contains(#[trigger] s[k]),
        run_end(s, i, class) < s.len() ==> !class.contains(s[run_end(s, i, class)]),
    decreases s.len() - i,
{
    if i < s.len() && class.contains(s[i]) {
        lemma_run_end(s, i + 1, class);
    }
}

/// The end of the identifier that starts at `i`, or `i` where none starts.
pub open spec fn identifier_end(s: Seq<u8>, i: int) -> int {
    if 0 <= i < s.len() && is_identifier_start(s[i]) {
        run_end(s, i + 1, CharClass::IdentifierPart)
    } else {
        i
    }
}

/// The number that a run of decimal digits denotes.
pub open spec fn decimal(digits: Seq<u8>) -> nat
    decreases digits.len(),
{
    if digits.len() == 0 {
        0
    } else {
        decimal(digits.drop_last()) * 10 + (digits.last() - DIGIT_ZERO) as nat
    }
}

/// A number as a `usize`, if it is one.
pub open spec fn narrow(n: nat) -> Option<usize> {
    if n <= usize::MAX {
        Some(n as usize)
    } else {
        None
    }
}

/// A number as a bit number, if it fits in a `u8`.
pub open spec fn bit_number(n: Option<usize>) -> Option<u8> {
    match n {
        Some(v) => if v <= u8::MAX {
            Some(v as u8)
        } else {
            None
        },
        None => None,
    }
}

/// The direction that a word denotes, if it is one of the four.
pub open spec fn direction_of(word: Seq<u8>) -> Option<Direction> {
    if word == seq![LETTER_R] {
        Some(Direction::ReadOnly)
    } else if word == seq![LETTER_W] {
        Some(Direction::WriteOnly)
    } else if word == seq![LETTER_R, LETTER_W] {
        Some(Direction::ReadWrite)
    } else if word == seq![LETTER_T, LETTER_R] {
        Some(Direction::TryRead)
    } else {
        None
    }
}

/// The position of a single-bit field.
pub open spec fn bit_position(byte: Option<usize>, bit: Option<usize>) -> Result<
    Position,
    GenerationError,
> {
    match (byte, bit_number(bit)) {
        (Some(byte), Some(bit)) => Ok(Position::Bit { byte, bit }),
        _ => Err(GenerationError::PositionOutOfRange),
    }
}

/// The position of a range field.
pub open spec fn range_position(
    byte: Option<usize>,
    lsb: Option<usize>,
    msb: Option<usize>,
) -> Result<Position, GenerationError> {
    match (byte, bit_number(lsb), bit_number(msb)) {
        (Some(byte), Some(lsb), Some(msb)) => Ok(Position::Range { byte, lsb, msb }),
        _ => Err(GenerationError::PositionOutOfRange),
    }
}

/// The position that the numbers of an entry denote: `bit` or `byte, bit`
/// for a single-bit field, `lsb, msb` or `byte, lsb, msb` for a range field.
/// Another count of numbers is malformed; a number too large for its place is
/// out of range.
pub open spec fn position_of(typed: bool, numbers: Seq<Option<usize>>) -> Result<
    Position,
    GenerationError,
> {
    if typed && numbers.len() == 2 {
        range_position(Some(0), numbers[0], numbers[1])
    } else if typed && numbers.len() == 3 {
        range_position(numbers[0], numbers[1], numbers[2])
    } else if !typed && numbers.len() == 1 {
        bit_position(Some(0), numbers[0])
    } else if !typed && numbers.len() == 2 {
        bit_position(numbers[0], numbers[1])
    } else {
        Err(GenerationError::MalformedGrammar)
    }
}

/// Whether an annotation starts at `i`.
pub open spec fn begins_annotation(s: Seq<u8>, i: int) -> bool {
    0 <= i < s.len() && (s[i] == SLASH || s[i] == HASH)
}

/// The end of the annotation that starts at `i`: the end of the line for
/// `///`, the byte after the first `]` for `#[`. `None` where what starts at
/// `i` is neither, or where the `]` is missing.
pub open spec fn annotation_end(s: Seq<u8>, i: int) -> Option<int> {
    if 0 <= i && i + 2 < s.len() && s[i] == SLASH && s[i + 1] == SLASH && s[i + 2] == SLASH {
        Some(run_end(s, i + 3, CharClass::CommentText))
    } else if 0 <= i && i + 1 < s.len() && s[i] == HASH && s[i + 1] == OPEN_BRACKET {
        let close = run_end(s, i + 2, CharClass::AttributeText);
        if close < s.len() {
            Some(close + 1)
        } else {
            None
        }
    } else {
        None
    }
}

/// The annotations that start at `i`, each as it is written, and the position
/// after them and the space that follows them.
pub open spec fn parse_annotations(s: Seq<u8>, i: int) -> Result<
    (Seq<Seq<u8>>, int),
    GenerationError,
>
    decreases s.len() - i,
    via parse_annotations_decreases
{
    if begins_annotation(s, i) {
        match annotation_end(s, i) {
            None => Err(GenerationError::MalformedGrammar),
            Some(end) => match parse_annotations(s, run_end(s, end, CharClass::Space)) {
                Err(error) => Err(error),
                Ok((rest, next)) => Ok((seq![s.subrange(i, end)] + rest, next)),
            },
        }
    } else {
        Ok((Seq::empty(), i))
    }
}

#[via_fn]
proof fn parse_annotations_decreases(s: Seq<u8>, i: int) {
    if begins_annotation(s, i) {
        lemma_annotation_end(s, i);
        if let Some(end) = annotation_end(s, i) {
            lemma_run_end(s, end, CharClass::Space);
        }
    }
}

/// An annotation is not empty and ends in the text.
pub proof fn lemma_annotation_end(s: Seq<u8>, i: int)
    requires
        0 <= i <= s.len(),
    ensures
        annotation_end(s, i) matches Some(end) ==> i < end <= s.len(),
{
    if i + 2 < s.len() {
        lemma_run_end(s, i + 3, CharClass::CommentText);
    }
    if i + 1 < s.len() {
        lemma_run_end(s, i + 2, CharClass::AttributeText);
    }
}

/// The numbers that start at `i`, separated by commas, and the position
/// after them and the space that follows them.
pub open spec fn parse_numbers(s: Seq<u8>, i: int) -> Result<
    (Seq<Option<usize>>, int),
    GenerationError,
>
    decreases s.len() - i,
    via parse_numbers_decreases
{
    let end = run_end(s, i, CharClass::Digit);
    let after = run_end(s, end, CharClass::Space);
    if !(0 <= i < end) {
        Err(GenerationError::MalformedGrammar)
    } else if after < s.len() && s[after] == COMMA {
        match parse_numbers(s, run_end(s, after + 1, CharClass::Space)) {
            Err(error) => Err(error),
            Ok((rest, next)) => Ok((seq![narrow(decimal(s.subrange(i, end)))] + rest, next)),
        }
    } else {
        Ok((seq![narrow(decimal(s.subrange(i, end)))], after))
    }
}

#[via_fn]
proof fn parse_numbers_decreases(s: Seq<u8>, i: int) {
    let end = run_end(s, i, CharClass::Digit);
    let after = run_end(s, end, CharClass::Space);
    if 0 <= i < end {
        if i <= s.len() {
            lemma_run_end(s, i, CharClass::Digit);
            lemma_run_end(s, end, CharClass::Space);
            if after < s.len() {
                lemma_run_end(s, after + 1, CharClass::Space);
            }
        }
    }
}

/// What follows the identifier of an entry, from the `:` at `i` on: the
/// direction, the numbers and the `;`. The result is the field and the
/// position after the `;`.
pub open spec fn parse_entry_tail(
    s: Seq<u8>,
    i: int,
    metadata: Seq<Seq<u8>>,
    semantic_type: Option<Seq<u8>>,
    identifier: Seq<u8>,
) -> Result<(FieldModel, int), GenerationError> {
    let word = run_end(s, i + 1, CharClass::Space);
    let word_end = identifier_end(s, word);
    if !(0 <= i < s.len() && s[i] == COLON) {
        Err(GenerationError::MalformedGrammar)
    } else {
        match direction_of(s.subrange(word, word_end)) {
            None => Err(GenerationError::MalformedGrammar),
            Some(direction) => match parse_numbers(s, run_end(s, word_end, CharClass::Space)) {
                Err(error) => Err(error),
                Ok((numbers, next)) => if !(next < s.len() && s[next] == SEMICOLON) {
                    Err(GenerationError::MalformedGrammar)
                } else if semantic_type is None && direction is TryRead {
                    Err(GenerationError::MalformedGrammar)
                } else {
                    match position_of(semantic_type is Some, numbers) {
                        Err(error) => Err(error),
                        Ok(position) => Ok(
                            (
                                FieldModel {
                                    identifier,
                                    metadata,
                                    semantic_type,
                                    direction,
                                    position,
                                },
                                next + 1,
                            ),
                        ),
                    }
                },
            },
        }
    }
}

/// The entry that starts at `i`: its annotations, then a type and a comma if
/// the first identifier is followed by one, then the identifier and the rest.
/// The result is the field and the position after the entry's `;`.
pub open spec fn parse_entry(s: Seq<u8>, i: int) -> Result<(FieldModel, int), GenerationError> {
    match parse_annotations(s, i) {
        Err(error) => Err(error),
        Ok((metadata, first)) => {
            let first_end = identifier_end(s, first);
            let after = run_end(s, first_end, CharClass::Space);
            if first_end == first {
                Err(GenerationError::MalformedGrammar)
            } else if after < s.len() && s[after] == COMMA {
                let second = run_end(s, after + 1, CharClass::Space);
                let second_end = identifier_end(s, second);
                if second_end == second {
                    Err(GenerationError::MalformedGrammar)
                } else {
                    parse_entry_tail(
                        s,
                        run_end(s, second_end, CharClass::Space),
                        metadata,
                        Some(s.subrange(first, first_end)),
                        s.subrange(second, second_end),
                    )
                }
            } else {
                parse_entry_tail(s, after, metadata, None, s.subrange(first, first_end))
            }
        },
    }
}

/// The fields that the text denotes from `i` on: none if only space is left,
/// else the entry that comes first, followed by the fields of the remainder.
pub open spec fn parse_fields(s: Seq<u8>, i: int) -> Result<Seq<FieldModel>, GenerationError>
    decreases s.len() - i,
    via parse_fields_decreases
{
    let start = run_end(s, i, CharClass::Space);
    if !(0 <= i && start < s.len()) {
        Ok(Seq::empty())
    } else {
        match parse_entry(s, start) {
            Err(error) => Err(error),
            Ok((field, next)) => match parse_fields(s, next) {
                Err(error) => Err(error),
                Ok(rest) => Ok(seq![field] + rest),
            },
        }
    }
}

#[via_fn]
proof fn parse_fields_decreases(s: Seq<u8>, i: int) {
    let start = run_end(s, i, CharClass::Space);
    if 0 <= i && start < s.len() {
        if i <= s.len() {
            lemma_run_end(s, i, CharClass::Space);
            lemma_entry_advances(s, start);
        }
    }
}

/// Annotations end at or after the place where they start, and in the text.
pub proof fn lemma_annotations_advance(s: Seq<u8>, i: int)
    requires
        0 <= i <= s.len(),
    ensures
        parse_annotations(s, i) matches Ok((_, next)) ==> i <= next <= s.len(),
    decreases s.len() - i,
{
    if begins_annotation(s, i) {
        lemma_annotation_end(s, i);
        if let Some(end) = annotation_end(s, i) {
            lemma_run_end(s, end, CharClass::Space);
            lemma_annotations_advance(s, run_end(s, end, CharClass::Space));
        }
    }
}

/// Numbers end after the place where they start, and in the text.
pub proof fn lemma_numbers_advance(s: Seq<u8>, i: int)
    requires
        0 <= i <= s.len(),
    ensures
        parse_numbers(s, i) matches Ok((numbers, next)) ==> i < next <= s.len() && numbers.len()
            > 0,
    decreases s.len() - i,
{
    let end = run_end(s, i, CharClass::Digit);
    let after = run_end(s, end, CharClass::Space);
    lemma_run_end(s, i, CharClass::Digit);
    lemma_run_end(s, end, CharClass::Space);
    if i < end && after < s.len() && s[after] == COMMA {
        lemma_run_end(s, after + 1, CharClass::Space);
        lemma_numbers_advance(s, run_end(s, after + 1, CharClass::Space));
    }
}

/// An identifier ends in the text.
pub proof fn lemma_identifier_end(s: Seq<u8>, i: int)
    requires
        0 <= i <= s.len(),
    ensures
        i <= identifier_end(s, i) <= s.len(),
{
    if i < s.len() {
        lemma_run_end(s, i + 1, CharClass::IdentifierPart);
    }
}

/// An entry ends after the place where it starts, and in the text.
pub proof fn lemma_entry_advances(s: Seq<u8>, i: int)
    requires
        0 <= i <= s.len(),
    ensures
        parse_entry(s, i) matches Ok((_, next)) ==> i < next <= s.len(),
{
    lemma_annotations_advance(s, i);
    if let Ok((metadata, first)) = parse_annotations(s, i) {
        let first_end = identifier_end(s, first);
        lemma_identifier_end(s, first);
        lemma_run_end(s, first_end, CharClass::Space);
        let after = run_end(s, first_end, CharClass::Space);
        if first_end != first {
            if after < s.len() && s[after] == COMMA {
                lemma_run_end(s, after + 1, CharClass::Space);
                let second = run_end(s, after + 1, CharClass::Space);
                let second_end = identifier_end(s, second);
                lemma_identifier_end(s, second);
                lemma_run_end(s, second_end, CharClass::Space);
                lemma_tail_advances(
                    s,
                    run_end(s, second_end, CharClass::Space),
                    metadata,
                    Some(s.subrange(first, first_end)),
                    s.subrange(second, second_end),
                );
            } else {
                lemma_tail_advances(s, after, metadata, None, s.subrange(first, first_end));
            }
        }
    }
}

/// The rest of an entry ends after the place where it starts, and in the
/// text.
pub proof fn lemma_tail_advances(
    s: Seq<u8>,
    i: int,
    metadata: Seq<Seq<u8>>,
    semantic_type: Option<Seq<u8>>,
    identifier: Seq<u8>,
)
    requires
        0 <= i <= s.len(),
    ensures
        parse_entry_tail(s, i, metadata, semantic_type, identifier) matches Ok((_, next)) ==> i
            < next <= s.len(),
{
    if i < s.len() && s[i] == COLON {
        lemma_run_end(s, i + 1, CharClass::Space);
        let word = run_end(s, i + 1, CharClass::Space);
        lemma_identifier_end(s, word);
        let word_end = identifier_end(s, word);
        lemma_run_end(s, word_end, CharClass::Space);
        lemma_numbers_advance(s, run_end(s, word_end, CharClass::Space));
    }
}

/// What `identifier_end` delimits is an identifier.
pub proof fn lemma_identifier_found(s: Seq<u8>, i: int)
    requires
        0 <= i <= s.len(),
        identifier_end(s, i) != i,
    ensures
        is_identifier(s.subrange(i, identifier_end(s, i))),
{
    lemma_run_end(s, i + 1, CharClass::IdentifierPart);
    let word = s.subrange(i, identifier_end(s, i));
    assert forall|k: int| 0 <= k < word.len() implies is_identifier_part(#[trigger] word[k]) by {
        if k > 0 {
            assert(CharClass::IdentifierPart.contains(s[i + k]));
        }
    }
}

/// The numbers of an entry with a type denote a range, those of one without a
/// single bit.
pub proof fn lemma_position_shape(typed: bool, numbers: Seq<Option<usize>>)
    ensures
        position_of(typed, numbers) matches Ok(position) ==> (position is Range <==> typed),
{
}

/// Every field of a text that parses is coherent: the parser hands
/// generation nothing that it refuses as malformed.
pub proof fn lemma_parsed_fields_coherent(s: Seq<u8>, i: int)
    requires
        0 <= i <= s.len(),
    ensures
        parse_fields(s, i) matches Ok(fields) ==> forall|k: int|
            0 <= k < fields.len() ==> (#[trigger] fields[k]).coherent(),
    decreases s.len() - i,
{
    let start = run_end(s, i, CharClass::Space);
    lemma_run_end(s, i, CharClass::Space);
    if start < s.len() {
        lemma_entry_advances(s, start);
        lemma_entry_coherent(s, start);
        if let Ok((field, next)) = parse_entry(s, start) {
            lemma_parsed_fields_coherent(s, next);
            if let Ok(rest) = parse_fields(s, next) {
                let fields = seq![field] + rest;
                assert forall|k: int| 0 <= k < fields.len() implies (
                #[trigger] fields[k]).coherent() by {
                    if k > 0 {
                        assert(fields[k] == rest[k - 1]);
                    }
                }
            }
        }
    }
}

/// The field of an entry that parses is coherent.
pub proof fn lemma_entry_coherent(s: Seq<u8>, i: int)
    requires
        0 <= i <= s.len(),
    ensures
        parse_entry(s, i) matches Ok((field, _)) ==> field.coherent(),
{
    lemma_annotations_advance(s, i);
    if let Ok((metadata, first)) = parse_annotations(s, i) {
        let first_end = identifier_end(s, first);
        lemma_identifier_end(s, first);
        lemma_run_end(s, first_end, CharClass::Space);
        let after = run_end(s, first_end, CharClass::Space);
        if first_end != first {
            lemma_identifier_found(s, first);
            if after < s.len() && s[after] == COMMA {
                lemma_run_end(s, after + 1, CharClass::Space);
                let second = run_end(s, after + 1, CharClass::Space);
                let second_end = identifier_end(s, second);
                if second_end != second {
                    lemma_identifier_found(s, second);
                    let numbers = parse_numbers(
                        s,
                        run_end(
                            s,
                            identifier_end(
                                s,
                                run_end(
                                    s,
                                    run_end(s, second_end, CharClass::Space) + 1,
                                    CharClass::Space,
                                ),
                            ),
                            CharClass::Space,
                        ),
                    );
                    if let Ok((list, _)) = numbers {
                        lemma_position_shape(true, list);
                    }
                }
            } else {
                let numbers = parse_numbers(
                    s,
                    run_end(
                        s,
                        identifier_end(s, run_end(s, after + 1, CharClass::Space)),
                        CharClass::Space,
                    ),
                );
                if let Ok((list, _)) = numbers {
                    lemma_position_shape(false, list);
                }
            }
        }
    }
}

/// A list and a position, with more items put before the list; an error
/// stays what it is.
pub open spec fn prepend<T>(head: Seq<T>, rest: Result<(Seq<T>, int), GenerationError>) -> Result<
    (Seq<T>, int),
    GenerationError,
> {
    match rest {
        Ok((tail, next)) => Ok((head + tail, next)),
        Err(error) => Err(error),
    }
}

/// A list of fields, with more fields put before it; an error stays what it
/// is.
pub open spec fn prepend_fields(
    head: Seq<FieldModel>,
    rest: Result<Seq<FieldModel>, GenerationError>,
) -> Result<Seq<FieldModel>, GenerationError> {
    match rest {
        Ok(tail) => Ok(head + tail),
        Err(error) => Err(error),
    }
}

/// Nothing put before a list leaves it as it is.
pub proof fn lemma_prepend_nothing<T>(rest: Result<(Seq<T>, int), GenerationError>)
    ensures
        prepend(Seq::empty(), rest) == rest,
{
    if let Ok((tail, next)) = rest {
        assert(Seq::<T>::empty() + tail =~= tail);
    }
}

/// Items may be put before a list one at a time.
pub proof fn lemma_prepend_one_more<T>(
    head: Seq<T>,
    item: T,
    rest: Result<(Seq<T>, int), GenerationError>,
)
    ensures
        prepend(head, prepend(seq![item], rest)) == prepend(head.push(item), rest),
{
    if let Ok((tail, next)) = rest {
        assert(head + (seq![item] + tail) =~= head.push(item) + tail);
    }
}

/// No fields put before a list of fields leave it as it is.
pub proof fn lemma_prepend_no_fields(rest: Result<Seq<FieldModel>, GenerationError>)
    ensures
        prepend_fields(Seq::empty(), rest) == rest,
{
    if let Ok(tail) = rest {
        assert(Seq::<FieldModel>::empty() + tail =~= tail);
    }
}

/// Fields may be put before a list of fields one at a time.
pub proof fn lemma_prepend_one_more_field(
    head: Seq<FieldModel>,
    field: FieldModel,
    rest: Result<Seq<FieldModel>, GenerationError>,
)
    ensures
        prepend_fields(head, prepend_fields(seq![field], rest)) == prepend_fields(
            head.push(field),
            rest,
        ),
{
    if let Ok(tail) = rest {
        assert(head + (seq![field] + tail) =~= head.push(field) + tail);
    }
}

/// The number that the first digits of a run denote is at most the number
/// that the whole run denotes.
pub proof fn lemma_decimal_prefix(digits: Seq<u8>, k: int)
    requires
        0 <= k <= digits.len(),
    ensures
        decimal(digits.take(k)) <= decimal(digits),
    decreases digits.len(),
{
    if k == digits.len() {
        assert(digits.take(k) =~= digits);
    } else {
        lemma_decimal_prefix(digits.drop_last(), k);
        assert(digits.drop_last().take(k) =~= digits.take(k));
    }
}

/// The end of the longest run of bytes of `class` that starts at `start`.
fn scan(s: &[u8], start: usize, class: CharClass) -> (end: usize)
    requires
        start <= s.len(),
    ensures
        end == run_end(s@, start as int, class),
        start <= end <= s.len(),
{
    let mut i: usize = start;
    while i < s.len() && class.has(s[i])
        invariant
            start <= i <= s.len(),
            run_end(s@, start as int, class) == run_end(s@, i as int, class),
        decreases s.len() - i,
    {
        i += 1;
    }
    i
}

/// The end of the identifier that starts at `start`, or `start` where none
/// starts.
fn scan_identifier(s: &[u8], start: usize) -> (end: usize)
    requires
        start <= s.len(),
    ensures
        end == identifier_end(s@, start as int),
        start <= end <= s.len(),
{
    if start < s.len() && identifier_start(s[start]) {
        scan(s, start + 1, CharClass::IdentifierPart)
    } else {
        start
    }
}

/// The number that the digits `start..end` denote, if it is a `usize`.
fn read_decimal(s: &[u8], start: usize, end: usize) -> (value: Option<usize>)
    requires
        start <= end <= s.len(),
        forall|k: int| start <= k < end ==> is_digit(#[trigger] s@[k]),
    ensures
        value == narrow(decimal(s@.subrange(start as int, end as int))),
{
    let ghost digits = s@.subrange(start as int, end as int);
    let mut value: usize = 0;
    let mut i: usize = start;
    assert(s@.subrange(start as int, start as int) =~= Seq::<u8>::empty());
    while i < end
        invariant
            start <= i <= end <= s.len(),
            digits == s@.subrange(start as int, end as int),
            forall|k: int| start <= k < end ==> is_digit(#[trigger] s@[k]),
            value == decimal(s@.subrange(start as int, i as int)),
        decreases end - i,
    {
        let d: usize = (s[i] - DIGIT_ZERO) as usize;
        proof {
            let longer = s@.subrange(start as int, i + 1);
            assert(longer.drop_last() =~= s@.subrange(start as int, i as int));
            assert(longer.last() == s@[i as int]);
            assert(decimal(longer) == value * 10 + d);
            assert(digits.take(i + 1 - start) =~= longer);
            lemma_decimal_prefix(digits, i + 1 - start);
        }
        let scaled = match value.checked_mul(10) {
            Some(scaled) => scaled,
            None => {
                return None;
            },
        };
        value = match scaled.checked_add(d) {
            Some(sum) => sum,
            None => {
                return None;
            },
        };
        i += 1;
    }
    Some(value)
}

/// The direction that the word `start..end` denotes, if it is one.
fn read_direction(s: &[u8], start: usize, end: usize) -> (direction: Option<Direction>)
    requires
        start <= end <= s.len(),
    ensures
        direction == direction_of(s@.subrange(start as int, end as int)),
{
    let ghost word = s@.subrange(start as int, end as int);
    if end - start == 1 {
        assert(word =~= seq![s@[start as int]]);
        assert(seq![LETTER_R][0] == LETTER_R && seq![LETTER_W][0] == LETTER_W);
        if s[start] == LETTER_R {
            Some(Direction::ReadOnly)
        } else if s[start] == LETTER_W {
            Some(Direction::WriteOnly)
        } else {
            None
        }
    } else if end - start == 2 {
        assert(word =~= seq![s@[start as int], s@[start + 1]]);
        assert(seq![LETTER_R, LETTER_W][0] == LETTER_R && seq![LETTER_R, LETTER_W][1] == LETTER_W);
        assert(seq![LETTER_T, LETTER_R][0] == LETTER_T && seq![LETTER_T, LETTER_R][1] == LETTER_R);
        if s[start] == LETTER_R && s[start + 1] == LETTER_W {
            Some(Direction::ReadWrite)
        } else if s[start] == LETTER_T && s[start + 1] == LETTER_R {
            Some(Direction::TryRead)
        } else {
            None
        }
    } else {
        assert(seq![LETTER_R].len() == 1 && seq![LETTER_W].len() == 1);
        assert(seq![LETTER_R, LETTER_W].len() == 2 && seq![LETTER_T, LETTER_R].len() == 2);
        None
    }
}

/// A number as a bit number, if it fits in a `u8`.
fn to_bit_number(n: Option<usize>) -> (bit: Option<u8>)
    ensures
        bit == bit_number(n),
{
    match n {
        Some(v) => if v <= 255 {
            Some(v as u8)
        } else {
            None
        },
        None => None,
    }
}

/// The position of a single-bit field.
fn make_bit_position(byte: Option<usize>, bit: Option<usize>) -> (position: Result<
    Position,
    GenerationError,
>)
    ensures
        position == bit_position(byte, bit),
{
    match (byte, to_bit_number(bit)) {
        (Some(byte), Some(bit)) => Ok(Position::Bit { byte, bit }),
        _ => Err(GenerationError::PositionOutOfRange),
    }
}

/// The position of a range field.
fn make_range_position(byte: Option<usize>, lsb: Option<usize>, msb: Option<usize>) -> (position:
    Result<Position, GenerationError>)
    ensures
        position == range_position(byte, lsb, msb),
{
    match (byte, to_bit_number(lsb), to_bit_number(msb)) {
        (Some(byte), Some(lsb), Some(msb)) => Ok(Position::Range { byte, lsb, msb }),
        _ => Err(GenerationError::PositionOutOfRange),
    }
}

/// The position that the numbers of an entry denote.
fn make_position(typed: bool, numbers: &Vec<Option<usize>>) -> (position: Result<
    Position,
    GenerationError,
>)
    ensures
        position == position_of(typed, numbers@),
{
    if typed && numbers.len() == 2 {
        make_range_position(Some(0), numbers[0], numbers[1])
    } else if typed && numbers.len() == 3 {
        make_range_position(numbers[0], numbers[1], numbers[2])
    } else if !typed && numbers.len() == 1 {
        make_bit_position(Some(0), numbers[0])
    } else if !typed && numbers.len() == 2 {
        make_bit_position(numbers[0], numbers[1])
    } else {
        Err(GenerationError::MalformedGrammar)
    }
}

/// The end of the annotation that starts at `i`, if one does.
fn read_annotation_end(s: &[u8], i: usize) -> (end: Option<usize>)
    requires
        i <= s.len(),
    ensures
        match end {
            Some(end) => annotation_end(s@, i as int) == Some(end as int) && i < end <= s.len(),
            None => annotation_end(s@, i as int) is None,
        },
{
    proof {
        lemma_annotation_end(s@, i as int);
    }
    if s.len() - i > 2 && s[i] == SLASH && s[i + 1] == SLASH && s[i + 2] == SLASH {
        Some(scan(s, i + 3, CharClass::CommentText))
    } else if s.len() - i > 1 && s[i] == HASH && s[i + 1] == OPEN_BRACKET {
        let close = scan(s, i + 2, CharClass::AttributeText);
        if close < s.len() {
            Some(close + 1)
        } else {
            None
        }
    } else {
        None
    }
}

/// The annotations that start at `start`, and the position after them.
fn read_annotations(s: &[u8], start: usize) -> (result: Result<
    (Vec<Vec<u8>>, usize),
    GenerationError,
>)
    requires
        start <= s.len(),
    ensures
        match result {
            Ok((list, next)) => parse_annotations(s@, start as int) == Ok::<
                (Seq<Seq<u8>>, int),
                GenerationError,
            >((lines_view(list@), next as int)) && start <= next <= s.len(),
            Err(error) => parse_annotations(s@, start as int) == Err::<
                (Seq<Seq<u8>>, int),
                GenerationError,
            >(error),
        },
{
    let mut list: Vec<Vec<u8>> = Vec::new();
    let mut i: usize = start;
    proof {
        assert(lines_view(list@) =~= Seq::<Seq<u8>>::empty());
        lemma_prepend_nothing(parse_annotations(s@, start as int));
    }
    while i < s.len() && (s[i] == SLASH || s[i] == HASH)
        invariant
            start <= i <= s.len(),
            parse_annotations(s@, start as int) == prepend(
                lines_view(list@),
                parse_annotations(s@, i as int),
            ),
        decreases s.len() - i,
    {
        let end = match read_annotation_end(s, i) {
            Some(end) => end,
            None => {
                return Err(GenerationError::MalformedGrammar);
            },
        };
        let ghost before = lines_view(list@);
        list.push(copy_range(s, i, end));
        let next = scan(s, end, CharClass::Space);
        proof {
            let line = s@.subrange(i as int, end as int);
            assert(lines_view(list@) =~= before.push(line));
            lemma_prepend_one_more(before, line, parse_annotations(s@, next as int));
        }
        i = next;
    }
    proof {
        assert(lines_view(list@) + Seq::<Seq<u8>>::empty() =~= lines_view(list@));
    }
    Ok((list, i))
}

/// The numbers that start at `start`, and the position after them.
fn read_numbers(s: &[u8], start: usize) -> (result: Result<
    (Vec<Option<usize>>, usize),
    GenerationError,
>)
    requires
        start <= s.len(),
    ensures
        match result {
            Ok((numbers, next)) => parse_numbers(s@, start as int) == Ok::<
                (Seq<Option<usize>>, int),
                GenerationError,
            >((numbers@, next as int)) && start <= next <= s.len(),
            Err(error) => parse_numbers(s@, start as int) == Err::<
                (Seq<Option<usize>>, int),
                GenerationError,
            >(error),
        },
{
    let mut numbers: Vec<Option<usize>> = Vec::new();
    let mut i: usize = start;
    proof {
        lemma_prepend_nothing(parse_numbers(s@, start as int));
    }
    loop
        invariant
            start <= i <= s.len(),
            parse_numbers(s@, start as int) == prepend(numbers@, parse_numbers(s@, i as int)),
        decreases s.len() - i,
    {
        let end = scan(s, i, CharClass::Digit);
        if end == i {
            return Err(GenerationError::MalformedGrammar);
        }
        proof {
            lemma_run_end(s@, i as int, CharClass::Digit);
        }
        let value = read_decimal(s, i, end);
        let after = scan(s, end, CharClass::Space);
        let ghost before = numbers@;
        numbers.push(value);
        if after < s.len() && s[after] == COMMA {
            let next = scan(s, after + 1, CharClass::Space);
            proof {
                lemma_prepend_one_more(before, value, parse_numbers(s@, next as int));
            }
            i = next;
        } else {
            proof {
                assert(before + seq![value] =~= numbers@);
            }
            return Ok((numbers, after));
        }
    }
}

/// What follows the identifier of an entry, from the `:` at `i` on.
fn read_entry_tail(
    s: &[u8],
    i: usize,
    metadata: Vec<Vec<u8>>,
    semantic_type: Option<Vec<u8>>,
    identifier: Vec<u8>,
) -> (result: Result<(FieldSpec, usize), GenerationError>)
    requires
        i <= s.len(),
    ensures
        match result {
            Ok((field, next)) => parse_entry_tail(
                s@,
                i as int,
                lines_view(metadata@),
                optional_view(semantic_type),
                identifier@,
            ) == Ok::<(FieldModel, int), GenerationError>((field@, next as int)) && i < next
                <= s.len(),
            Err(error) => parse_entry_tail(
                s@,
                i as int,
                lines_view(metadata@),
                optional_view(semantic_type),
                identifier@,
            ) == Err::<(FieldModel, int), GenerationError>(error),
        },
{
    if !(i < s.len() && s[i] == COLON) {
        return Err(GenerationError::MalformedGrammar);
    }
    let word = scan(s, i + 1, CharClass::Space);
    let word_end = scan_identifier(s, word);
    let direction = match read_direction(s, word, word_end) {
        Some(direction) => direction,
        None => {
            return Err(GenerationError::MalformedGrammar);
        },
    };
    let (numbers, next) = match read_numbers(s, scan(s, word_end, CharClass::Space)) {
        Ok(found) => found,
        Err(error) => {
            return Err(error);
        },
    };
    if !(next < s.len() && s[next] == SEMICOLON) {
        return Err(GenerationError::MalformedGrammar);
    }
    if semantic_type.is_none() && matches!(direction, Direction::TryRead) {
        return Err(GenerationError::MalformedGrammar);
    }
    let position = match make_position(semantic_type.is_some(), &numbers) {
        Ok(position) => position,
        Err(error) => {
            return Err(error);
        },
    };
    Ok((FieldSpec { identifier, metadata, semantic_type, direction, position }, next + 1))
}

/// The entry that starts at `i`.
fn read_entry(s: &[u8], i: usize) -> (result: Result<(FieldSpec, usize), GenerationError>)
    requires
        i <= s.len(),
    ensures
        match result {
            Ok((field, next)) => parse_entry(s@, i as int) == Ok::<
                (FieldModel, int),
                GenerationError,
            >((field@, next as int)) && i < next <= s.len(),
            Err(error) => parse_entry(s@, i as int) == Err::<(FieldModel, int), GenerationError>(
                error,
            ),
        },
{
    let (metadata, first) = match read_annotations(s, i) {
        Ok(found) => found,
        Err(error) => {
            return Err(error);
        },
    };
    let first_end = scan_identifier(s, first);
    if first_end == first {
        return Err(GenerationError::MalformedGrammar);
    }
    let after = scan(s, first_end, CharClass::Space);
    if after < s.len() && s[after] == COMMA {
        let second = scan(s, after + 1, CharClass::Space);
        let second_end = scan_identifier(s, second);
        if second_end == second {
            return Err(GenerationError::MalformedGrammar);
        }
        let semantic_type = Some(copy_range(s, first, first_end));
        let identifier = copy_range(s, second, second_end);
        read_entry_tail(
            s,
            scan(s, second_end, CharClass::Space),
            metadata,
            semantic_type,
            identifier,
        )
    } else {
        let identifier = copy_range(s, first, first_end);
        read_entry_tail(s, after, metadata, None, identifier)
    }
}

/// Parse the text of one generation unit into its fields, in the order in
/// which they are written.
///
/// The result is what [`parse_fields`] says of the whole text: the fields, or
/// `MalformedGrammar` where the text is no instance of the grammar, or
/// `PositionOutOfRange` where a well-formed entry holds a number that is too
/// large for a byte index or a bit number. The first entry at fault decides.
pub fn parse(text: &[u8]) -> (result: Result<Vec<FieldSpec>, GenerationError>)
    ensures
        match result {
            Ok(fields) => {
                &&& parse_fields(text@, 0) == Ok::<Seq<FieldModel>, GenerationError>(
                    field_models(fields@),
                )
                &&& forall|k: int| 0 <= k < fields.len() ==> (#[trigger] fields[k])@.coherent()
            },
            Err(error) => parse_fields(text@, 0) == Err::<Seq<FieldModel>, GenerationError>(error),
        },
{
    let mut fields: Vec<FieldSpec> = Vec::new();
    let mut i: usize = 0;
    proof {
        lemma_parsed_fields_coherent(text@, 0);
        assert(field_models(fields@) =~= Seq::<FieldModel>::empty());
        lemma_prepend_no_fields(parse_fields(text@, 0));
    }
    loop
        invariant
            i <= text.len(),
            parse_fields(text@, 0) == prepend_fields(
                field_models(fields@),
                parse_fields(text@, i as int),
            ),
            parse_fields(text@, 0) matches Ok(all) ==> forall|k: int|
                0 <= k < all.len() ==> (#[trigger] all[k]).coherent(),
        decreases text.len() - i,
    {
        let start = scan(text, i, CharClass::Space);
        if start >= text.len() {
            proof {
                let whole = parse_fields(text@, 0)->Ok_0;
                assert(field_models(fields@) + Seq::<FieldModel>::empty() =~= field_models(
                    fields@,
                ));
                assert forall|k: int| 0 <= k < fields.len() implies (
                #[trigger] fields[k])@.coherent() by {
                    assert(whole[k] == fields[k]@);
                }
            }
            return Ok(fields);
        }
        let (field, next) = match read_entry(text, start) {
            Ok(found) => found,
            Err(error) => {
                return Err(error);
            },
        };
        let ghost before = field_models(fields@);
        fields.push(field);
        proof {
            assert(field_models(fields@) =~= before.push(field@));
            lemma_prepend_one_more_field(before, field@, parse_fields(text@, next as int));
        }
        i = next;
    }
}

} // verus!
