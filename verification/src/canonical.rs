//! The canonical text of a list of fields, and the law that ties the parser
//! to it: the canonical text of coherent fields parses back to those fields.
//!
//! This states the grammar a second time, from the fields to the text, so
//! that the parser's meaning is held to something other than itself; it also
//! shows that every coherent list of fields can be written down.

use vstd::prelude::*;

use crate::field::{Direction, FieldModel, GenerationError, Position};
use crate::grammar::{
    annotation_end, begins_annotation, bit_number, decimal, direction_of, identifier_end, narrow,
    parse_annotations, parse_entry, parse_entry_tail, parse_fields, parse_numbers, position_of,
    run_end, CharClass, CLOSE_BRACKET, COLON, COMMA, DIGIT_ZERO, HASH, LETTER_R, LETTER_T,
    LETTER_W, LINE_FEED, OPEN_BRACKET, SEMICOLON, SLASH,
};
use crate::text::{is_digit, is_identifier, is_identifier_part, is_identifier_start, is_space};

verus! {

pub const BLANK: u8 = 0x20;

/// The decimal digits of a number, without leading zeros.
pub open spec fn digits_of(n: nat) -> Seq<u8>
    decreases n,
{
    if n < 10 {
        seq![(DIGIT_ZERO + n) as u8]
    } else {
        digits_of(n / 10).push((DIGIT_ZERO + n % 10) as u8)
    }
}

/// The word of a direction.
pub open spec fn direction_word(direction: Direction) -> Seq<u8> {
    match direction {
        Direction::ReadOnly => seq![LETTER_R],
        Direction::WriteOnly => seq![LETTER_W],
        Direction::ReadWrite => seq![LETTER_R, LETTER_W],
        Direction::TryRead => seq![LETTER_T, LETTER_R],
    }
}

/// The numbers of a position, the byte index always written out.
pub open spec fn position_text(position: Position) -> Seq<u8> {
    match position {
        Position::Bit { byte, bit } => digits_of(byte as nat) + seq![COMMA] + digits_of(bit as nat),
        Position::Range { byte, lsb, msb } => digits_of(byte as nat) + seq![COMMA] + digits_of(
            lsb as nat,
        ) + seq![COMMA] + digits_of(msb as nat),
    }
}

/// Whether `a` can stand as an annotation: `///` and a text without a line
/// feed, or `#[`, a text without `]`, and `]`.
pub open spec fn is_annotation(a: Seq<u8>) -> bool {
    ||| {
        &&& a.len() >= 3
        &&& a[0] == SLASH && a[1] == SLASH && a[2] == SLASH
        &&& forall|k: int| 0 <= k < a.len() ==> #[trigger] a[k] != LINE_FEED
    }
    ||| {
        &&& a.len() >= 3
        &&& a[0] == HASH && a[1] == OPEN_BRACKET && a[a.len() - 1] == CLOSE_BRACKET
        &&& forall|k: int| 2 <= k < a.len() - 1 ==> #[trigger] a[k] != CLOSE_BRACKET
    }
}

/// The annotations of a field, one on each line.
pub open spec fn annotations_text(list: Seq<Seq<u8>>) -> Seq<u8>
    decreases list.len(),
{
    if list.len() == 0 {
        Seq::empty()
    } else {
        list[0] + seq![LINE_FEED] + annotations_text(list.drop_first())
    }
}

/// The type of a range field and its comma; nothing for a single-bit field.
pub open spec fn type_text(semantic_type: Option<Seq<u8>>) -> Seq<u8> {
    match semantic_type {
        Some(name) => name + seq![COMMA, BLANK],
        None => Seq::empty(),
    }
}

/// An entry from its identifier on: `identifier: direction numbers;` and a
/// line feed.
pub open spec fn declaration_text(field: FieldModel) -> Seq<u8> {
    field.identifier + seq![COLON, BLANK] + direction_word(field.direction) + seq![BLANK]
        + position_text(field.position) + seq![SEMICOLON, LINE_FEED]
}

/// The canonical text of one field.
pub open spec fn field_text(field: FieldModel) -> Seq<u8> {
    annotations_text(field.metadata) + (type_text(field.semantic_type) + declaration_text(field))
}

/// The canonical text of a list of fields.
pub open spec fn unit_text(fields: Seq<FieldModel>) -> Seq<u8>
    decreases fields.len(),
{
    if fields.len() == 0 {
        Seq::empty()
    } else {
        field_text(fields[0]) + unit_text(fields.drop_first())
    }
}

/// Whether a field can be written down: it is coherent and its annotations
/// can stand as annotations.
pub open spec fn writable(field: FieldModel) -> bool {
    &&& field.coherent()
    &&& forall|k: int| 0 <= k < field.metadata.len() ==> is_annotation(#[trigger] field.metadata[k])
}

/// Whether the bytes of `t` stand in `s` from `i` on.
pub open spec fn has_at(s: Seq<u8>, i: int, t: Seq<u8>) -> bool {
    &&& 0 <= i
    &&& i + t.len() <= s.len()
    &&& forall|k: int| 0 <= k < t.len() ==> s[i + k] == #[trigger] t[k]
}

/// The canonical text of fields that can be written down parses to those
/// fields.
pub proof fn lemma_parse_unit_text(fields: Seq<FieldModel>)
    requires
        forall|k: int| 0 <= k < fields.len() ==> writable(#[trigger] fields[k]),
    ensures
        parse_fields(unit_text(fields), 0) == Ok::<Seq<FieldModel>, GenerationError>(fields),
{
    let s = unit_text(fields);
    assert(has_at(s, 0, s));
    lemma_unit_at(s, 0, fields);
}

/// A text that stands at `i` in two parts: the first stands at `i`, the
/// second right after it.
proof fn lemma_has_at_split(s: Seq<u8>, i: int, a: Seq<u8>, b: Seq<u8>)
    requires
        has_at(s, i, a + b),
    ensures
        has_at(s, i, a),
        has_at(s, i + a.len(), b),
{
    let t = a + b;
    assert forall|k: int| 0 <= k < a.len() implies s[i + k] == #[trigger] a[k] by {
        assert(t[k] == a[k]);
    }
    assert forall|k: int| 0 <= k < b.len() implies s[i + a.len() + k] == #[trigger] b[k] by {
        assert(t[a.len() + k] == b[k]);
    }
}

/// A text that stands at `i` is the piece of `s` that starts there.
proof fn lemma_has_at_text(s: Seq<u8>, i: int, t: Seq<u8>)
    requires
        has_at(s, i, t),
    ensures
        s.subrange(i, i + t.len()) == t,
{
    assert forall|k: int| 0 <= k < t.len() implies s.subrange(i, i + t.len())[k] == t[k] by {
        assert(s[i + k] == t[k]);
    }
    assert(s.subrange(i, i + t.len()) =~= t);
}

/// Bytes of a class from `i` to `end`, and none of it at `end`, make the run
/// that starts at `i` end at `end`.
proof fn lemma_run_exact(s: Seq<u8>, i: int, end: int, class: CharClass)
    requires
        0 <= i <= end <= s.len(),
        forall|k: int| i <= k < end ==> class.contains(#[trigger] s[k]),
        end == s.len() || !class.contains(s[end]),
    ensures
        run_end(s, i, class) == end,
    decreases end - i,
{
    if i < end {
        assert(class.contains(s[i]));
        lemma_run_exact(s, i + 1, end, class);
    }
}

/// The digits of a number are digits, at least one, and denote the number.
proof fn lemma_digits_of(n: nat)
    ensures
        digits_of(n).len() > 0,
        forall|k: int| 0 <= k < digits_of(n).len() ==> is_digit(#[trigger] digits_of(n)[k]),
        decimal(digits_of(n)) == n,
    decreases n,
{
    let d = digits_of(n);
    if n < 10 {
        assert(d.drop_last() =~= Seq::<u8>::empty());
        assert(d.last() == (DIGIT_ZERO + n) as u8);
        assert(decimal(d.drop_last()) == 0);
    } else {
        lemma_digits_of(n / 10);
        assert(d.drop_last() =~= digits_of(n / 10));
        assert(d.last() == (DIGIT_ZERO + n % 10) as u8);
        assert forall|k: int| 0 <= k < d.len() implies is_digit(#[trigger] d[k]) by {
            if k < d.len() - 1 {
                assert(d[k] == digits_of(n / 10)[k]);
            }
        }
    }
}

/// The word of a direction is an identifier and denotes the direction.
proof fn lemma_direction_word(direction: Direction)
    ensures
        direction_of(direction_word(direction)) == Some(direction),
        is_identifier(direction_word(direction)),
{
    let r = seq![LETTER_R];
    let w = seq![LETTER_W];
    let rw = seq![LETTER_R, LETTER_W];
    let tr = seq![LETTER_T, LETTER_R];
    assert(r.len() == 1 && w.len() == 1 && rw.len() == 2 && tr.len() == 2);
    assert(r[0] == LETTER_R && w[0] == LETTER_W && rw[0] == LETTER_R && tr[0] == LETTER_T);
    assert(rw[1] == LETTER_W && tr[1] == LETTER_R);
}

/// An identifier that stands at `i`, followed by a byte that cannot continue
/// it, is what `identifier_end` delimits.
proof fn lemma_identifier_at(s: Seq<u8>, i: int, word: Seq<u8>)
    requires
        is_identifier(word),
        has_at(s, i, word),
        i + word.len() < s.len(),
        !is_identifier_part(s[i + word.len()]),
    ensures
        identifier_end(s, i) == i + word.len(),
        s.subrange(i, i + word.len()) == word,
{
    assert(s[i + 0] == word[0]);
    assert forall|k: int| i + 1 <= k < i + word.len() implies CharClass::IdentifierPart.contains(
        #[trigger] s[k],
    ) by {
        assert(s[i + (k - i)] == word[k - i]);
    }
    lemma_run_exact(s, i + 1, i + word.len(), CharClass::IdentifierPart);
    lemma_has_at_text(s, i, word);
}

/// The digits of `n` at `i`, followed by a byte that is no digit, are a run
/// of digits that denotes `n`.
proof fn lemma_number_at(s: Seq<u8>, i: int, n: nat)
    requires
        has_at(s, i, digits_of(n)),
        i + digits_of(n).len() < s.len(),
        !is_digit(s[i + digits_of(n).len()]),
    ensures
        run_end(s, i, CharClass::Digit) == i + digits_of(n).len(),
        i < i + digits_of(n).len(),
        decimal(s.subrange(i, i + digits_of(n).len())) == n,
{
    let d = digits_of(n);
    lemma_digits_of(n);
    assert forall|k: int| i <= k < i + d.len() implies CharClass::Digit.contains(
        #[trigger] s[k],
    ) by {
        assert(s[i + (k - i)] == d[k - i]);
    }
    lemma_run_exact(s, i, i + d.len(), CharClass::Digit);
    lemma_has_at_text(s, i, d);
}

/// The last number of a list, followed by `;`.
proof fn lemma_last_number(s: Seq<u8>, i: int, n: nat)
    requires
        has_at(s, i, digits_of(n) + seq![SEMICOLON]),
    ensures
        parse_numbers(s, i) == Ok::<(Seq<Option<usize>>, int), GenerationError>(
            (seq![narrow(n)], i + digits_of(n).len()),
        ),
        s[i + digits_of(n).len()] == SEMICOLON,
        i + digits_of(n).len() < s.len(),
{
    let d = digits_of(n);
    lemma_has_at_split(s, i, d, seq![SEMICOLON]);
    let end = i + d.len();
    assert(s[end + 0] == seq![SEMICOLON][0]);
    lemma_number_at(s, i, n);
    lemma_run_exact(s, end, end, CharClass::Space);
}

/// A number of a list that is not the last: it is followed by `,` and the
/// text `rest`, which starts with a digit.
proof fn lemma_next_number(s: Seq<u8>, i: int, n: nat, rest: Seq<u8>)
    requires
        has_at(s, i, digits_of(n) + seq![COMMA] + rest),
        rest.len() > 0,
        is_digit(rest[0]),
    ensures
        parse_numbers(s, i) == match parse_numbers(s, i + digits_of(n).len() + 1) {
            Err(error) => Err::<(Seq<Option<usize>>, int), GenerationError>(error),
            Ok((more, next)) => Ok((seq![narrow(n)] + more, next)),
        },
        has_at(s, i + digits_of(n).len() + 1, rest),
{
    let d = digits_of(n);
    lemma_has_at_split(s, i, d + seq![COMMA], rest);
    lemma_has_at_split(s, i, d, seq![COMMA]);
    let end = i + d.len();
    assert(s[end + 0] == seq![COMMA][0]);
    assert(s[end + 1 + 0] == rest[0]);
    lemma_number_at(s, i, n);
    lemma_run_exact(s, end, end, CharClass::Space);
    lemma_run_exact(s, end + 1, end + 1, CharClass::Space);
}

/// The numbers of a position, followed by `;`, denote that position.
proof fn lemma_position_at(s: Seq<u8>, i: int, position: Position)
    requires
        has_at(s, i, position_text(position) + seq![SEMICOLON]),
    ensures
        parse_numbers(s, i) matches Ok((numbers, next)) && next == i + position_text(
            position,
        ).len() && position_of(position is Range, numbers) == Ok::<Position, GenerationError>(
            position,
        ),
{
    let semi = seq![SEMICOLON];
    let comma = seq![COMMA];
    match position {
        Position::Bit { byte, bit } => {
            let a = digits_of(byte as nat);
            let b = digits_of(bit as nat);
            lemma_digits_of(bit as nat);
            assert((a + comma + b) + semi =~= a + comma + (b + semi));
            assert((b + semi)[0] == b[0]);
            lemma_next_number(s, i, byte as nat, b + semi);
            lemma_last_number(s, i + a.len() + 1, bit as nat);
            let numbers = seq![narrow(byte as nat)] + seq![narrow(bit as nat)];
            assert(numbers.len() == 2);
            assert(numbers[0] == Some(byte) && numbers[1] == Some(bit as usize));
            assert(bit_number(Some(bit as usize)) == Some(bit));
        },
        Position::Range { byte, lsb, msb } => {
            let a = digits_of(byte as nat);
            let b = digits_of(lsb as nat);
            let c = digits_of(msb as nat);
            lemma_digits_of(lsb as nat);
            lemma_digits_of(msb as nat);
            assert((a + comma + b + comma + c) + semi =~= a + comma + (b + comma + (c + semi)));
            assert((b + comma + (c + semi))[0] == b[0]);
            lemma_next_number(s, i, byte as nat, b + comma + (c + semi));
            assert((c + semi)[0] == c[0]);
            lemma_next_number(s, i + a.len() + 1, lsb as nat, c + semi);
            lemma_last_number(s, i + a.len() + 1 + b.len() + 1, msb as nat);
            let numbers = seq![narrow(byte as nat)] + (seq![narrow(lsb as nat)] + seq![
                narrow(msb as nat),
            ]);
            assert(numbers.len() == 3);
            assert(numbers[0] == Some(byte) && numbers[1] == Some(lsb as usize) && numbers[2]
                == Some(msb as usize));
            assert(bit_number(Some(lsb as usize)) == Some(lsb));
            assert(bit_number(Some(msb as usize)) == Some(msb));
        },
    }
}

/// An entry from its `:` on.
proof fn lemma_tail_at(s: Seq<u8>, i: int, field: FieldModel)
    requires
        field.coherent(),
        has_at(
            s,
            i,
            seq![COLON, BLANK] + direction_word(field.direction) + seq![BLANK] + position_text(
                field.position,
            ) + seq![SEMICOLON, LINE_FEED],
        ),
    ensures
        parse_entry_tail(s, i, field.metadata, field.semantic_type, field.identifier) == Ok::<
            (FieldModel, int),
            GenerationError,
        >(
            (
                field,
                i + 2 + direction_word(field.direction).len() + 1 + position_text(
                    field.position,
                ).len() + 1,
            ),
        ),
{
    let head = seq![COLON, BLANK];
    let word = direction_word(field.direction);
    let blank = seq![BLANK];
    let numbers = position_text(field.position);
    let close = seq![SEMICOLON, LINE_FEED];
    lemma_direction_word(field.direction);
    lemma_has_at_split(s, i, head + word + blank + numbers, close);
    lemma_has_at_split(s, i, head + word + blank, numbers);
    lemma_has_at_split(s, i, head + word, blank);
    lemma_has_at_split(s, i, head, word);
    let at_word = i + 2;
    let at_blank = at_word + word.len();
    let at_numbers = at_blank + 1;
    let at_close = at_numbers + numbers.len();
    assert(s[i + 0] == head[0] && s[i + 1] == head[1]);
    assert(s[at_word + 0] == word[0]);
    assert(s[at_blank + 0] == blank[0]);
    assert(s[at_close + 0] == close[0]);
    assert(numbers.len() > 0 && is_digit(numbers[0])) by {
        lemma_digits_of(field.position.byte_index() as nat);
        let first = digits_of(field.position.byte_index() as nat);
        assert(numbers[0] == first[0]);
    }
    assert(s[at_numbers + 0] == numbers[0]);
    lemma_run_exact(s, i + 1, at_word, CharClass::Space);
    lemma_identifier_at(s, at_word, word);
    lemma_run_exact(s, at_blank, at_numbers, CharClass::Space);
    assert(has_at(s, at_numbers, numbers + seq![SEMICOLON])) by {
        let t = numbers + seq![SEMICOLON];
        assert forall|k: int| 0 <= k < t.len() implies s[at_numbers + k] == #[trigger] t[k] by {
            if k < numbers.len() {
                assert(t[k] == numbers[k]);
            }
        }
    }
    lemma_position_at(s, at_numbers, field.position);
}

/// The annotations of a field, followed by the start of an identifier.
proof fn lemma_annotations_at(s: Seq<u8>, i: int, list: Seq<Seq<u8>>)
    requires
        forall|k: int| 0 <= k < list.len() ==> is_annotation(#[trigger] list[k]),
        has_at(s, i, annotations_text(list)),
        i + annotations_text(list).len() < s.len(),
        is_identifier_start(s[i + annotations_text(list).len()]),
    ensures
        parse_annotations(s, i) == Ok::<(Seq<Seq<u8>>, int), GenerationError>(
            (list, i + annotations_text(list).len()),
        ),
    decreases list.len(),
{
    if list.len() == 0 {
        assert(!begins_annotation(s, i));
        assert(list =~= Seq::<Seq<u8>>::empty());
    } else {
        let a = list[0];
        let rest = list.drop_first();
        let line = seq![LINE_FEED];
        assert(is_annotation(list[0]));
        lemma_has_at_split(s, i, a + line, annotations_text(rest));
        lemma_has_at_split(s, i, a, line);
        let end = i + a.len();
        assert(s[end + 0] == line[0]);
        assert(s[i + 0] == a[0] && s[i + 1] == a[1] && s[i + 2] == a[2]);
        if a[0] == SLASH {
            assert forall|k: int| i + 3 <= k < end implies CharClass::CommentText.contains(
                #[trigger] s[k],
            ) by {
                assert(s[i + (k - i)] == a[k - i]);
            }
            lemma_run_exact(s, i + 3, end, CharClass::CommentText);
        } else {
            assert(s[i + (a.len() - 1)] == a[a.len() - 1]);
            assert forall|k: int| i + 2 <= k < end - 1 implies CharClass::AttributeText.contains(
                #[trigger] s[k],
            ) by {
                assert(s[i + (k - i)] == a[k - i]);
            }
            lemma_run_exact(s, i + 2, end - 1, CharClass::AttributeText);
        }
        assert(annotation_end(s, i) == Some(end));
        lemma_has_at_text(s, i, a);
        let next = end + 1;
        assert forall|k: int| 0 <= k < rest.len() implies is_annotation(#[trigger] rest[k]) by {
            assert(rest[k] == list[k + 1]);
        }
        assert(!is_space(s[next])) by {
            if rest.len() == 0 {
                assert(annotations_text(rest) =~= Seq::<u8>::empty());
            } else {
                let b = rest[0];
                assert(is_annotation(rest[0]));
                let t = annotations_text(rest);
                assert(t[0] == b[0]);
                assert(s[next + 0] == t[0]);
            }
        }
        lemma_run_exact(s, end, next, CharClass::Space);
        lemma_annotations_at(s, next, rest);
        assert(seq![a] + rest =~= list);
    }
}

/// The canonical text of a field that stands at `i` is an entry that denotes
/// the field and ends at the text's last byte, its line feed.
proof fn lemma_field_at(s: Seq<u8>, i: int, field: FieldModel)
    requires
        writable(field),
        has_at(s, i, field_text(field)),
    ensures
        parse_entry(s, i) == Ok::<(FieldModel, int), GenerationError>(
            (field, i + field_text(field).len() - 1),
        ),
        field_text(field).len() > 0,
        s[i + field_text(field).len() - 1] == LINE_FEED,
        !is_space(s[i]),
{
    let notes = annotations_text(field.metadata);
    let kind = type_text(field.semantic_type);
    let declaration = declaration_text(field);
    let tail = seq![COLON, BLANK] + direction_word(field.direction) + seq![BLANK] + position_text(
        field.position,
    ) + seq![SEMICOLON, LINE_FEED];
    assert(declaration =~= field.identifier + tail);
    lemma_has_at_split(s, i, notes, kind + declaration);
    let first = i + notes.len();
    lemma_has_at_split(s, first, kind, declaration);
    let at_name = first + kind.len();
    lemma_has_at_split(s, at_name, field.identifier, tail);
    let at_tail = at_name + field.identifier.len();
    assert(tail[0] == COLON && tail.len() >= 2);
    assert(tail[tail.len() - 1] == LINE_FEED);
    assert(s[at_tail + 0] == tail[0]);
    assert(s[at_tail + (tail.len() - 1)] == tail[tail.len() - 1]);
    assert(s[at_name + 0] == field.identifier[0]);
    lemma_identifier_at(s, at_name, field.identifier);
    lemma_run_exact(s, at_tail, at_tail, CharClass::Space);
    lemma_tail_at(s, at_tail, field);
    match field.semantic_type {
        Some(name) => {
            let sep = seq![COMMA, BLANK];
            lemma_has_at_split(s, first, name, sep);
            let at_sep = first + name.len();
            assert(s[at_sep + 0] == sep[0] && s[at_sep + 1] == sep[1]);
            assert(s[first + 0] == name[0]);
            lemma_identifier_at(s, first, name);
            lemma_run_exact(s, at_sep, at_sep, CharClass::Space);
            lemma_run_exact(s, at_sep + 1, at_sep + 2, CharClass::Space);
            lemma_annotations_at(s, i, field.metadata);
        },
        None => {
            assert(kind =~= Seq::<u8>::empty());
            lemma_annotations_at(s, i, field.metadata);
        },
    }
    assert(!is_space(s[i])) by {
        if field.metadata.len() == 0 {
            assert(notes =~= Seq::<u8>::empty());
        } else {
            let a = field.metadata[0];
            assert(is_annotation(field.metadata[0]));
            assert(notes[0] == a[0]);
            assert(s[i + 0] == notes[0]);
        }
    }
}

/// The canonical text of a list of fields that fills `s` from `i` on parses
/// to the list.
proof fn lemma_unit_at(s: Seq<u8>, i: int, fields: Seq<FieldModel>)
    requires
        forall|k: int| 0 <= k < fields.len() ==> writable(#[trigger] fields[k]),
        has_at(s, i, unit_text(fields)),
        i + unit_text(fields).len() == s.len(),
    ensures
        parse_fields(s, i) == Ok::<Seq<FieldModel>, GenerationError>(fields),
    decreases fields.len(),
{
    if fields.len() == 0 {
        lemma_run_exact(s, i, i, CharClass::Space);
        assert(fields =~= Seq::<FieldModel>::empty());
    } else {
        let field = fields[0];
        let rest = fields.drop_first();
        assert(writable(fields[0]));
        lemma_has_at_split(s, i, field_text(field), unit_text(rest));
        lemma_field_at(s, i, field);
        let next = i + field_text(field).len() - 1;
        lemma_run_exact(s, i, i, CharClass::Space);
        assert forall|k: int| 0 <= k < rest.len() implies writable(#[trigger] rest[k]) by {
            assert(rest[k] == fields[k + 1]);
        }
        lemma_unit_at(s, next + 1, rest);
        assert(parse_fields(s, next) == parse_fields(s, next + 1)) by {
            assert(run_end(s, next, CharClass::Space) == run_end(s, next + 1, CharClass::Space));
        }
        assert(seq![field] + rest =~= fields);
    }
}

} // verus!
