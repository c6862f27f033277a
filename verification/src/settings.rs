//! The settings file of an asset: eight fields of text with single spaces between them.
use vstd::prelude::*;
use vstd::utf8::{
    encode_utf8, encode_utf8_decode_utf8, encode_utf8_valid_utf8, is_ascii_chars_encode_utf8,
    is_char_boundary_iff_not_is_continuation_byte, pop_first_scalar, valid_utf8,
    valid_utf8_concat, valid_utf8_split,
};

use crate::math::{FloatBits, UVec2};
use crate::oct_coords::{lemma_modes_differ, GridMode};

verus! {

/// The byte that stands between fields.
pub const SPACE: u8 = 32;

/// The byte of the digit zero.
pub const DIGIT_ZERO: u8 = 48;

/// The byte of the digit nine.
pub const DIGIT_NINE: u8 = 57;

/// The byte of a plus sign.
pub const PLUS: u8 = 43;

/// A number in decimal digits, without leading zeros.
pub open spec fn decimal_text(n: nat) -> Seq<u8>
    decreases n,
{
    if n < 10 {
        seq![(DIGIT_ZERO + n) as u8]
    } else {
        decimal_text(n / 10).push((DIGIT_ZERO + n % 10) as u8)
    }
}

/// Appends a number in decimal digits.
pub fn push_decimal(out: &mut Vec<u8>, n: u32)
    ensures
        final(out)@ == old(out)@ + decimal_text(n as nat),
    decreases n,
{
    if n >= 10 {
        push_decimal(out, n / 10);
    }
    out.push(DIGIT_ZERO + (n % 10) as u8);
    assert(out@ =~= old(out)@ + decimal_text(n as nat));
}

/// Whether a byte is a decimal digit.
pub open spec fn is_digit(b: u8) -> bool {
    DIGIT_ZERO <= b <= DIGIT_NINE
}

/// The number that decimal digits stand for.
pub open spec fn decimal_value(digits: Seq<u8>) -> int
    decreases digits.len(),
{
    if digits.len() == 0 {
        0
    } else {
        10 * decimal_value(digits.drop_last()) + (digits.last() - DIGIT_ZERO)
    }
}

/// A text without the plus sign that may stand first.
pub open spec fn without_plus(text: Seq<u8>) -> Seq<u8> {
    if text.len() > 0 && text[0] == PLUS {
        text.skip(1)
    } else {
        text
    }
}

/// The number that a text stands for, where it is one or more decimal digits, with or without a
/// plus sign, and fits 32 bits.
pub open spec fn parsed_decimal(text: Seq<u8>) -> Option<u32> {
    let digits = without_plus(text);
    if digits.len() > 0 && (forall|i: int| 0 <= i < digits.len() ==> is_digit(#[trigger] digits[i]))
        && decimal_value(digits) <= u32::MAX {
        Some(decimal_value(digits) as u32)
    } else {
        None
    }
}

/// The number that a text stands for.
pub fn parse_decimal(text: &Vec<u8>) -> (r: Option<u32>)
    ensures
        r == parsed_decimal(text@),
{
    let start: usize = if text.len() > 0 && text[0] == PLUS {
        1
    } else {
        0
    };
    let ghost digits = without_plus(text@);
    assert(digits =~= text@.skip(start as int));
    if start == text.len() {
        return None;
    }
    let mut value: u64 = 0;
    let mut over: bool = false;
    let mut i: usize = start;
    while i < text.len()
        invariant
            start <= i <= text@.len(),
            digits == text@.skip(start as int),
            digits == without_plus(text@),
            forall|k: int| 0 <= k < i - start ==> is_digit(#[trigger] digits[k]),
            over <==> decimal_value(digits.take(i - start)) > u32::MAX,
            !over ==> value == decimal_value(digits.take(i - start)),
        decreases text@.len() - i,
    {
        let b: u8 = text[i];
        assert(digits[i - start] == b);
        if b < DIGIT_ZERO || DIGIT_NINE < b {
            return None;
        }
        proof {
            assert(digits.take(i - start + 1).drop_last() =~= digits.take(i - start));
            assert(digits.take(i - start + 1).last() == b);
        }
        if !over {
            value = 10 * value + (b - DIGIT_ZERO) as u64;
            if value > u32::MAX as u64 {
                over = true;
            }
        }
        i = i + 1;
    }
    assert(digits.take(i - start) =~= digits);
    if over {
        None
    } else {
        Some(value as u32)
    }
}

/// The digits of a number stand for it.
pub proof fn law_decimal_round_trip(n: u32)
    ensures
        parsed_decimal(decimal_text(n as nat)) == Some(n),
        forall|i: int|
            0 <= i < decimal_text(n as nat).len() ==> is_digit(
                #[trigger] decimal_text(n as nat)[i],
            ),
{
    lemma_decimal_digits(n as nat);
    assert(!(decimal_text(n as nat)[0] == PLUS));
}

/// The text of a number is made of digits and has its value.
proof fn lemma_decimal_digits(n: nat)
    ensures
        decimal_text(n).len() > 0,
        forall|i: int| 0 <= i < decimal_text(n).len() ==> is_digit(#[trigger] decimal_text(n)[i]),
        decimal_value(decimal_text(n)) == n,
    decreases n,
{
    if n >= 10 {
        lemma_decimal_digits(n / 10);
        assert(decimal_text(n).drop_last() =~= decimal_text(n / 10));
    } else {
        assert(decimal_text(n).drop_last() =~= Seq::<u8>::empty());
        assert(decimal_value(Seq::<u8>::empty()) == 0);
    }
}

/// Where the first space of a text stands, or its length where it has none.
pub open spec fn first_space(text: Seq<u8>) -> int
    decreases text.len(),
{
    if text.len() == 0 || text[0] == SPACE {
        0
    } else {
        1 + first_space(text.skip(1))
    }
}

/// The fields of a text: what stands between its spaces.
pub open spec fn fields(text: Seq<u8>) -> Seq<Seq<u8>>
    decreases text.len(),
{
    proof {
        lemma_first_space(text, 0);
    }
    let at = first_space(text);
    if at == text.len() {
        seq![text]
    } else {
        seq![text.take(at)] + fields(text.skip(at + 1))
    }
}

/// The first space is the first one.
pub proof fn lemma_first_space(text: Seq<u8>, at: int)
    ensures
        0 <= first_space(text) <= text.len(),
        forall|i: int| 0 <= i < first_space(text) ==> #[trigger] text[i] != SPACE,
        first_space(text) < text.len() ==> text[first_space(text)] == SPACE,
        0 <= at <= text.len() && (at < text.len() ==> text[at] == SPACE) && (forall|i: int|
            0 <= i < at ==> #[trigger] text[i] != SPACE) ==> first_space(text) == at,
    decreases text.len(),
{
    if text.len() > 0 && text[0] != SPACE {
        let rest = text.skip(1);
        lemma_first_space(rest, at - 1);
        assert forall|i: int| 0 <= i < first_space(text) implies #[trigger] text[i] != SPACE by {
            if i > 0 {
                assert(rest[i - 1] == text[i]);
            }
        }
        if first_space(text) < text.len() {
            assert(rest[first_space(rest)] == text[first_space(text)]);
        }
        if 0 <= at <= text.len() && (at < text.len() ==> text[at] == SPACE) && (forall|i: int|
            0 <= i < at ==> #[trigger] text[i] != SPACE) {
            assert(at != 0);
            assert(at < text.len() ==> rest[at - 1] == text[at]);
            assert forall|i: int| 0 <= i < at - 1 implies #[trigger] rest[i] != SPACE by {
                assert(rest[i] == text[i + 1]);
            }
        }
    }
}

/// The views of a sequence of buffers.
pub open spec fn views(buffers: Seq<Vec<u8>>) -> Seq<Seq<u8>> {
    buffers.map_values(|buffer: Vec<u8>| buffer@)
}

/// The fields of a text.
pub fn split_fields(text: &Vec<u8>) -> (r: Vec<Vec<u8>>)
    ensures
        views(r@) == fields(text@),
{
    let mut done: Vec<Vec<u8>> = Vec::new();
    let mut field: Vec<u8> = Vec::new();
    let mut i: usize = 0;
    let ghost mut start: int = 0;
    proof {
        assert(text@.skip(0) =~= text@);
        assert(views(done@) + fields(text@) =~= fields(text@));
    }
    while i < text.len()
        invariant
            0 <= start <= i <= text@.len(),
            field@ == text@.subrange(start, i as int),
            forall|k: int| start <= k < i ==> #[trigger] text@[k] != SPACE,
            fields(text@) == views(done@) + fields(text@.skip(start)),
        decreases text@.len() - i,
    {
        let b: u8 = text[i];
        if b == SPACE {
            let ghost before = done@;
            let ghost last = field@;
            done.push(field);
            field = Vec::new();
            proof {
                let rest = text@.skip(start);
                assert forall|k: int| 0 <= k < i - start implies #[trigger] rest[k] != SPACE by {
                    assert(rest[k] == text@[start + k]);
                }
                assert(rest[i - start] == SPACE);
                lemma_first_space(rest, i - start);
                assert(rest.take(i - start) =~= last);
                assert(rest.skip(i - start + 1) =~= text@.skip(i + 1));
                assert(views(done@) =~= views(before).push(last));
                assert(views(done@) + fields(text@.skip(i + 1)) =~= views(before) + (seq![last]
                    + fields(text@.skip(i + 1))));
                start = i + 1;
                assert(field@ =~= text@.subrange(start, i + 1));
            }
        } else {
            field.push(b);
            assert(field@ =~= text@.subrange(start, i + 1));
        }
        i = i + 1;
    }
    let ghost before = done@;
    let ghost last = field@;
    done.push(field);
    proof {
        let rest = text@.skip(start);
        assert forall|k: int| 0 <= k < rest.len() implies #[trigger] rest[k] != SPACE by {
            assert(rest[k] == text@[start + k]);
        }
        lemma_first_space(rest, rest.len() as int);
        assert(rest =~= last);
        assert(views(done@) =~= views(before) + seq![last]);
    }
    done
}

/// Text can be cut at a space.
proof fn lemma_cut_at_space(text: Seq<u8>, at: int)
    requires
        valid_utf8(text),
        0 <= at < text.len(),
        text[at] == SPACE,
    ensures
        valid_utf8(text.take(at)),
        valid_utf8(text.skip(at + 1)),
{
    is_char_boundary_iff_not_is_continuation_byte(text, at);
    valid_utf8_split(text, at);
    assert(text.take(at) =~= text.subrange(0, at));
    let rest = text.subrange(at, text.len() as int);
    assert(rest[0] == SPACE);
    assert(pop_first_scalar(rest) =~= text.skip(at + 1));
}

/// The fields of a text are texts.
pub proof fn lemma_fields_valid(text: Seq<u8>)
    requires
        valid_utf8(text),
    ensures
        forall|i: int| 0 <= i < fields(text).len() ==> valid_utf8(#[trigger] fields(text)[i]),
    decreases text.len(),
{
    lemma_first_space(text, 0);
    let at = first_space(text);
    if at < text.len() {
        lemma_cut_at_space(text, at);
        let rest = text.skip(at + 1);
        lemma_fields_valid(rest);
        assert forall|i: int| 0 <= i < fields(text).len() implies valid_utf8(
            #[trigger] fields(text)[i],
        ) by {
            if i > 0 {
                assert(fields(text)[i] == fields(rest)[i - 1]);
            }
        }
    }
}

/// Texts with a space between each and the next.
pub open spec fn joined(parts: Seq<Seq<u8>>) -> Seq<u8>
    decreases parts.len(),
{
    if parts.len() == 0 {
        Seq::empty()
    } else if parts.len() == 1 {
        parts[0]
    } else {
        joined(parts.drop_last()).push(SPACE) + parts.last()
    }
}

/// A text of which a field without spaces is appended has that field last.
proof fn lemma_fields_append(text: Seq<u8>, last: Seq<u8>)
    requires
        forall|i: int| 0 <= i < last.len() ==> #[trigger] last[i] != SPACE,
    ensures
        fields(text.push(SPACE) + last) == fields(text).push(last),
    decreases text.len(),
{
    let whole = text.push(SPACE) + last;
    lemma_first_space(text, 0);
    let at = first_space(text);
    assert(whole[at] == SPACE);
    assert forall|i: int| 0 <= i < at implies #[trigger] whole[i] != SPACE by {
        assert(whole[i] == text[i]);
    }
    lemma_first_space(whole, at);
    if at == text.len() {
        lemma_first_space(last, last.len() as int);
        assert(whole.take(at) =~= text);
        assert(whole.skip(at + 1) =~= last);
        assert(fields(last) == seq![last]);
        assert(fields(text) == seq![text]);
        assert(seq![text] + seq![last] =~= seq![text].push(last));
    } else {
        let rest = text.skip(at + 1);
        lemma_fields_append(rest, last);
        assert(whole.take(at) =~= text.take(at));
        assert(whole.skip(at + 1) =~= rest.push(SPACE) + last);
        assert(seq![text.take(at)] + fields(rest).push(last) =~= (seq![text.take(at)] + fields(
            rest,
        )).push(last));
    }
}

/// Joining texts without spaces and splitting the result gives the texts.
pub proof fn lemma_fields_joined(parts: Seq<Seq<u8>>)
    requires
        0 < parts.len(),
        forall|k: int, i: int|
            0 <= k < parts.len() && 0 <= i < parts[k].len() ==> #[trigger] parts[k][i] != SPACE,
    ensures
        fields(joined(parts)) == parts,
    decreases parts.len(),
{
    let last = parts.last();
    if parts.len() == 1 {
        lemma_first_space(last, last.len() as int);
        assert(fields(joined(parts)) =~= parts);
    } else {
        let front = parts.drop_last();
        assert forall|k: int, i: int|
            0 <= k < front.len() && 0 <= i < front[k].len() implies #[trigger] front[k][i]
            != SPACE by {
            assert(front[k][i] == parts[k][i]);
        }
        lemma_fields_joined(front);
        lemma_fields_append(joined(front), last);
        assert(front.push(last) =~= parts);
    }
}

/// Joining texts gives a text.
pub proof fn lemma_joined_valid(parts: Seq<Seq<u8>>)
    requires
        forall|k: int| 0 <= k < parts.len() ==> valid_utf8(#[trigger] parts[k]),
    ensures
        valid_utf8(joined(parts)),
    decreases parts.len(),
{
    if parts.len() > 1 {
        let front = parts.drop_last();
        lemma_joined_valid(front);
        let space = seq![SPACE];
        assert(pop_first_scalar(space) =~= Seq::<u8>::empty());
        assert(valid_utf8(space)) by {
            reveal_with_fuel(valid_utf8, 2);
        }
        valid_utf8_concat(joined(front), space);
        assert(joined(front) + space =~= joined(front).push(SPACE));
        valid_utf8_concat(joined(front).push(SPACE), parts.last());
    }
}

/// Joins texts with a space between each and the next.
pub fn join(parts: &Vec<Vec<u8>>) -> (r: Vec<u8>)
    ensures
        r@ == joined(views(parts@)),
{
    let mut out: Vec<u8> = Vec::new();
    let mut k: usize = 0;
    assert(joined(views(parts@).take(0)) =~= out@);
    while k < parts.len()
        invariant
            k <= parts@.len(),
            out@ == joined(views(parts@).take(k as int)),
        decreases parts@.len() - k,
    {
        let ghost before = out@;
        if k > 0 {
            out.push(SPACE);
        }
        append(&mut out, &parts[k]);
        proof {
            let longer = views(parts@).take(k + 1);
            assert(longer.drop_last() =~= views(parts@).take(k as int));
            assert(longer.last() == parts@[k as int]@);
            if k == 0 {
                assert(longer[0] == parts@[0]@);
                assert(out@ =~= parts@[0]@);
            }
        }
        k = k + 1;
    }
    assert(views(parts@).take(k as int) =~= views(parts@));
    out
}

/// Appends bytes.
fn append(out: &mut Vec<u8>, bytes: &Vec<u8>)
    ensures
        final(out)@ == old(out)@ + bytes@,
{
    let mut i: usize = 0;
    while i < bytes.len()
        invariant
            i <= bytes@.len(),
            out@ == old(out)@ + bytes@.take(i as int),
        decreases bytes@.len() - i,
    {
        out.push(bytes[i]);
        assert(bytes@.take(i + 1) =~= bytes@.take(i as int).push(bytes@[i as int]));
        i = i + 1;
    }
    assert(bytes@.take(i as int) =~= bytes@);
}

/// How the tiles of an asset are laid out.
#[derive(Clone, Copy, Debug, PartialEq, Eq, Structural)]
pub struct Layout {
    /// Tiles in each direction.
    pub grid_size: u32,
    /// Pixels in each direction of a tile before blank edges were cut off.
    pub base_tile_size: u32,
    /// What was cut off each tile on the left and above.
    pub packed_tile_offset: UVec2,
    /// What is left of each tile.
    pub packed_tile_size: UVec2,
}

/// What the settings file of an asset says. A mode that is not known is left open.
#[derive(Clone, Copy, Debug, PartialEq, Eq)]
pub struct AssetSettings {
    pub layout: Layout,
    pub scale: FloatBits,
    pub mode: Option<GridMode>,
}

/// Why a settings file cannot be used.
#[derive(Clone, Copy, Debug, PartialEq, Eq, Structural)]
pub enum SettingsError {
    /// It is not UTF-8 text.
    NotText,
    /// It has fewer than eight fields.
    BadFormat,
    /// A field that should be a number is none: the first such field, counted from zero.
    BadNumber(usize),
}

/// The fields of a settings file, with the scale as text.
pub open spec fn settings_parts(layout: Layout, scale: Seq<u8>, mode: GridMode) -> Seq<Seq<u8>> {
    seq![
        decimal_text(layout.grid_size as nat),
        scale,
        encode_utf8(mode.name()),
        decimal_text(layout.base_tile_size as nat),
        decimal_text(layout.packed_tile_offset.x as nat),
        decimal_text(layout.packed_tile_offset.y as nat),
        decimal_text(layout.packed_tile_size.x as nat),
        decimal_text(layout.packed_tile_size.y as nat),
    ]
}

/// The text of a settings file, with the scale as text.
pub open spec fn settings_text(layout: Layout, scale: Seq<u8>, mode: GridMode) -> Seq<u8> {
    joined(settings_parts(layout, scale, mode))
}

/// A number in decimal digits.
fn decimal(n: u32) -> (r: Vec<u8>)
    ensures
        r@ == decimal_text(n as nat),
{
    let mut out: Vec<u8> = Vec::new();
    push_decimal(&mut out, n);
    assert(Seq::<u8>::empty() + decimal_text(n as nat) =~= decimal_text(n as nat));
    out
}

/// The bytes of a text.
fn text_bytes(text: &str) -> (r: Vec<u8>)
    ensures
        r@ == encode_utf8(text@),
{
    let bytes = text.as_bytes();
    let mut out: Vec<u8> = Vec::new();
    let mut i: usize = 0;
    while i < bytes.len()
        invariant
            i <= bytes@.len(),
            out@ == bytes@.take(i as int),
        decreases bytes@.len() - i,
    {
        out.push(bytes[i]);
        assert(bytes@.take(i + 1) =~= bytes@.take(i as int).push(bytes@[i as int]));
        i = i + 1;
    }
    assert(bytes@.take(i as int) =~= bytes@);
    out
}

/// Writes a settings file, with the scale as text.
pub fn write_settings(layout: &Layout, scale: &str, mode: GridMode) -> (r: Vec<u8>)
    ensures
        r@ == settings_text(*layout, encode_utf8(scale@), mode),
{
    let mut parts: Vec<Vec<u8>> = Vec::new();
    parts.push(decimal(layout.grid_size));
    parts.push(text_bytes(scale));
    parts.push(text_bytes(mode.as_name()));
    parts.push(decimal(layout.base_tile_size));
    parts.push(decimal(layout.packed_tile_offset.x));
    parts.push(decimal(layout.packed_tile_offset.y));
    parts.push(decimal(layout.packed_tile_size.x));
    parts.push(decimal(layout.packed_tile_size.y));
    assert(views(parts@) =~= settings_parts(*layout, encode_utf8(scale@), mode));
    join(&parts)
}

/// The mode that a text names, if any.
pub open spec fn named_mode(text: Seq<u8>) -> Option<GridMode> {
    if text == encode_utf8(GridMode::Spherical.name()) {
        Some(GridMode::Spherical)
    } else if text == encode_utf8(GridMode::Hemispherical.name()) {
        Some(GridMode::Hemispherical)
    } else if text == encode_utf8(GridMode::Horizontal.name()) {
        Some(GridMode::Horizontal)
    } else {
        None
    }
}

/// Whether two buffers hold the same bytes.
fn same_bytes(a: &Vec<u8>, b: &Vec<u8>) -> (r: bool)
    ensures
        r == (a@ == b@),
{
    if a.len() != b.len() {
        return false;
    }
    let mut i: usize = 0;
    while i < a.len()
        invariant
            a@.len() == b@.len(),
            i <= a@.len(),
            forall|k: int| 0 <= k < i ==> #[trigger] a@[k] == b@[k],
        decreases a@.len() - i,
    {
        if a[i] != b[i] {
            return false;
        }
        i = i + 1;
    }
    assert(a@ =~= b@);
    true
}

/// Whether two texts are the same.
pub fn same_text(a: &str, b: &str) -> (r: bool)
    ensures
        r == (a@ == b@),
{
    proof {
        encode_utf8_decode_utf8(a@);
        encode_utf8_decode_utf8(b@);
    }
    same_bytes(&text_bytes(a), &text_bytes(b))
}

/// The mode that a text names, if any.
pub fn parse_mode(text: &Vec<u8>) -> (r: Option<GridMode>)
    ensures
        r == named_mode(text@),
        r == Some(GridMode::Spherical) <==> text@ == encode_utf8("spherical"@),
        r == Some(GridMode::Hemispherical) <==> text@ == encode_utf8("hemispherical"@),
        r == Some(GridMode::Horizontal) <==> text@ == encode_utf8("Horizontal"@),
{
    proof {
        law_mode_names(text@);
    }
    let spherical = GridMode::Spherical;
    let hemispherical = GridMode::Hemispherical;
    let horizontal = GridMode::Horizontal;
    if same_bytes(text, &text_bytes(spherical.as_name())) {
        Some(spherical)
    } else if same_bytes(text, &text_bytes(hemispherical.as_name())) {
        Some(hemispherical)
    } else if same_bytes(text, &text_bytes(horizontal.as_name())) {
        Some(horizontal)
    } else {
        None
    }
}

/// A buffer as text, by `core::str::from_utf8`: it succeeds exactly on valid UTF-8, and the text
/// has the bytes of the buffer.
#[verifier::external_body]
pub(crate) fn utf8_text(bytes: &Vec<u8>) -> (r: Option<&str>)
    ensures
        match r {
            Some(text) => valid_utf8(bytes@) && encode_utf8(text@) == bytes@,
            None => !valid_utf8(bytes@),
        },
{
    core::str::from_utf8(bytes).ok()
}

/// Whether a settings file has the fields it needs; else why not.
pub open spec fn settings_fault(text: Seq<u8>) -> Option<SettingsError> {
    if !valid_utf8(text) {
        Some(SettingsError::NotText)
    } else if fields(text).len() < 8 {
        Some(SettingsError::BadFormat)
    } else {
        None
    }
}

/// The fields of a settings file.
pub fn settings_fields(text: &Vec<u8>) -> (r: Result<Vec<Vec<u8>>, SettingsError>)
    ensures
        match r {
            Ok(parts) => settings_fault(text@) is None && views(parts@) == fields(text@),
            Err(error) => settings_fault(text@) == Some(error),
        },
        r == Err::<Vec<Vec<u8>>, _>(SettingsError::NotText) <==> !valid_utf8(text@),
        r == Err::<Vec<Vec<u8>>, _>(SettingsError::BadFormat) <==> valid_utf8(text@) && fields(
            text@,
        ).len() < 8,
{
    if utf8_text(text).is_none() {
        return Err(SettingsError::NotText);
    }
    let parts = split_fields(text);
    assert(views(parts@).len() == parts@.len());
    if parts.len() < 8 {
        Err(SettingsError::BadFormat)
    } else {
        Ok(parts)
    }
}

/// The first field of a settings file that should be a number and is none, where `scale` is the
/// number that the second field stands for, if any.
pub open spec fn bad_number(parts: Seq<Seq<u8>>, scale: Option<FloatBits>) -> Option<usize> {
    if parsed_decimal(parts[0]) is None {
        Some(0)
    } else if scale is None {
        Some(1)
    } else if parsed_decimal(parts[3]) is None {
        Some(3)
    } else if parsed_decimal(parts[4]) is None {
        Some(4)
    } else if parsed_decimal(parts[5]) is None {
        Some(5)
    } else if parsed_decimal(parts[6]) is None {
        Some(6)
    } else if parsed_decimal(parts[7]) is None {
        Some(7)
    } else {
        None
    }
}

/// What the fields of a settings file say, where `scale` is the number that the second field
/// stands for, if any. Fields after the eighth are passed over.
pub open spec fn parsed_settings(parts: Seq<Seq<u8>>, scale: Option<FloatBits>) -> Result<
    AssetSettings,
    SettingsError,
> {
    match bad_number(parts, scale) {
        Some(field) => Err(SettingsError::BadNumber(field)),
        None => Ok(
            AssetSettings {
                layout: Layout {
                    grid_size: parsed_decimal(parts[0]).unwrap(),
                    base_tile_size: parsed_decimal(parts[3]).unwrap(),
                    packed_tile_offset: UVec2 {
                        x: parsed_decimal(parts[4]).unwrap(),
                        y: parsed_decimal(parts[5]).unwrap(),
                    },
                    packed_tile_size: UVec2 {
                        x: parsed_decimal(parts[6]).unwrap(),
                        y: parsed_decimal(parts[7]).unwrap(),
                    },
                },
                scale: scale.unwrap(),
                mode: named_mode(parts[2]),
            },
        ),
    }
}

/// The number in a field of a settings file.
fn number_field(parts: &Vec<Vec<u8>>, field: usize) -> (r: Result<u32, SettingsError>)
    requires
        field < parts@.len(),
    ensures
        match r {
            Ok(n) => parsed_decimal(views(parts@)[field as int]) == Some(n),
            Err(error) => parsed_decimal(views(parts@)[field as int]) is None && error
                == SettingsError::BadNumber(field),
        },
{
    match parse_decimal(&parts[field]) {
        Some(n) => Ok(n),
        None => Err(SettingsError::BadNumber(field)),
    }
}

/// What the fields of a settings file say.
pub fn parse_settings(parts: &Vec<Vec<u8>>, scale: Option<FloatBits>) -> (r: Result<
    AssetSettings,
    SettingsError,
>)
    requires
        8 <= parts@.len(),
    ensures
        r == parsed_settings(views(parts@), scale),
        r is Ok <==> {
            &&& parsed_decimal(parts@[0]@) is Some
            &&& scale is Some
            &&& parsed_decimal(parts@[3]@) is Some
            &&& parsed_decimal(parts@[4]@) is Some
            &&& parsed_decimal(parts@[5]@) is Some
            &&& parsed_decimal(parts@[6]@) is Some
            &&& parsed_decimal(parts@[7]@) is Some
        },
        r matches Ok(settings) ==> {
            &&& parsed_decimal(parts@[0]@) == Some(settings.layout.grid_size)
            &&& scale == Some(settings.scale)
            &&& parsed_decimal(parts@[3]@) == Some(settings.layout.base_tile_size)
            &&& parsed_decimal(parts@[4]@) == Some(settings.layout.packed_tile_offset.x)
            &&& parsed_decimal(parts@[5]@) == Some(settings.layout.packed_tile_offset.y)
            &&& parsed_decimal(parts@[6]@) == Some(settings.layout.packed_tile_size.x)
            &&& parsed_decimal(parts@[7]@) == Some(settings.layout.packed_tile_size.y)
            &&& settings.mode == Some(GridMode::Spherical) <==> parts@[2]@ == encode_utf8(
                "spherical"@,
            )
            &&& settings.mode == Some(GridMode::Hemispherical) <==> parts@[2]@ == encode_utf8(
                "hemispherical"@,
            )
            &&& settings.mode == Some(GridMode::Horizontal) <==> parts@[2]@ == encode_utf8(
                "Horizontal"@,
            )
        },
{
    proof {
        law_mode_names(parts@[2]@);
    }
    let grid_size: u32 = number_field(parts, 0)?;
    let scale = match scale {
        Some(scale) => scale,
        None => {
            return Err(SettingsError::BadNumber(1));
        },
    };
    let base_tile_size: u32 = number_field(parts, 3)?;
    let offset_x: u32 = number_field(parts, 4)?;
    let offset_y: u32 = number_field(parts, 5)?;
    let size_x: u32 = number_field(parts, 6)?;
    let size_y: u32 = number_field(parts, 7)?;
    Ok(
        AssetSettings {
            layout: Layout {
                grid_size,
                base_tile_size,
                packed_tile_offset: UVec2 { x: offset_x, y: offset_y },
                packed_tile_size: UVec2 { x: size_x, y: size_y },
            },
            scale,
            mode: parse_mode(&parts[2]),
        },
    )
}

/// A settings file that was written is read back: it has no fault, its second field is the text
/// of the scale, and its other fields say what was written. That holds of every text of a scale
/// without spaces.
pub proof fn law_settings_round_trip(
    layout: Layout,
    scale: Seq<char>,
    mode: GridMode,
    value: FloatBits,
)
    requires
        forall|i: int| 0 <= i < encode_utf8(scale).len() ==> #[trigger] encode_utf8(scale)[i]
            != SPACE,
    ensures
        ({
            let text = settings_text(layout, encode_utf8(scale), mode);
            &&& settings_fault(text) is None
            &&& fields(text) == settings_parts(layout, encode_utf8(scale), mode)
            &&& parsed_settings(fields(text), Some(value)) == Ok::<_, SettingsError>(
                (AssetSettings { layout, scale: value, mode: Some(mode) }),
            )
        }),
{
    let parts = settings_parts(layout, encode_utf8(scale), mode);
    lemma_mode_text(mode);
    law_decimal_round_trip(layout.grid_size);
    law_decimal_round_trip(layout.base_tile_size);
    law_decimal_round_trip(layout.packed_tile_offset.x);
    law_decimal_round_trip(layout.packed_tile_offset.y);
    law_decimal_round_trip(layout.packed_tile_size.x);
    law_decimal_round_trip(layout.packed_tile_size.y);
    lemma_fields_joined(parts);
    assert forall|k: int| 0 <= k < parts.len() implies valid_utf8(#[trigger] parts[k]) by {
        if k == 1 {
            encode_utf8_valid_utf8(scale);
        } else if k == 2 {
            encode_utf8_valid_utf8(mode.name());
        } else {
            lemma_digits_valid(parts[k]);
        }
    }
    lemma_joined_valid(parts);
}

/// A settings file is hardly longer than the text of its scale.
pub proof fn law_settings_are_short(layout: Layout, scale: Seq<u8>, mode: GridMode)
    ensures
        settings_text(layout, scale, mode).len() <= scale.len() + 100,
{
    let parts = settings_parts(layout, scale, mode);
    lemma_decimal_length(layout.grid_size);
    lemma_decimal_length(layout.base_tile_size);
    lemma_decimal_length(layout.packed_tile_offset.x);
    lemma_decimal_length(layout.packed_tile_offset.y);
    lemma_decimal_length(layout.packed_tile_size.x);
    lemma_decimal_length(layout.packed_tile_size.y);
    lemma_modes_differ(mode, mode);
    is_ascii_chars_encode_utf8(mode.name());
    lemma_joined_length(parts, 8);
    reveal_with_fuel(joined_length, 9);
    assert(parts.take(8) =~= parts);
}

/// How long so many texts are together, each with a space.
spec fn joined_length(parts: Seq<Seq<u8>>, n: nat) -> int
    decreases n,
{
    if n == 0 {
        0
    } else {
        joined_length(parts, (n - 1) as nat) + parts[n - 1].len() + 1
    }
}

/// Joined texts are not longer than the texts and a space for each.
proof fn lemma_joined_length(parts: Seq<Seq<u8>>, n: nat)
    requires
        n <= parts.len(),
    ensures
        joined(parts.take(n as int)).len() <= joined_length(parts, n),
    decreases n,
{
    if n > 0 {
        lemma_joined_length(parts, (n - 1) as nat);
        assert(parts.take(n as int).drop_last() =~= parts.take(n - 1));
    }
}

/// The text of a number of 32 bits has at most ten digits.
proof fn lemma_decimal_length(n: u32)
    ensures
        decimal_text(n as nat).len() <= 10,
{
    reveal_with_fuel(decimal_text, 10);
}

/// The text of a mode names the mode and holds no space.
proof fn lemma_mode_text(mode: GridMode)
    ensures
        named_mode(encode_utf8(mode.name())) == Some(mode),
        forall|i: int|
            0 <= i < encode_utf8(mode.name()).len() ==> #[trigger] encode_utf8(mode.name())[i]
                != SPACE,
{
    assert forall|m: GridMode|
        encode_utf8(m.name()) == encode_utf8(#[trigger] mode.name()) implies m == mode by {
        lemma_modes_differ(m, mode);
        encode_utf8_decode_utf8(m.name());
        encode_utf8_decode_utf8(mode.name());
    }
    lemma_modes_differ(mode, mode);
    is_ascii_chars_encode_utf8(mode.name());
}

/// Decimal digits are text.
proof fn lemma_digits_valid(digits: Seq<u8>)
    requires
        forall|i: int| 0 <= i < digits.len() ==> is_digit(#[trigger] digits[i]),
    ensures
        valid_utf8(digits),
    decreases digits.len(),
{
    if digits.len() > 0 {
        let rest = digits.skip(1);
        assert(pop_first_scalar(digits) =~= rest);
        lemma_digits_valid(rest);
    }
}

/// A text without spaces is one field, and what stands before the first space is the first field.
pub proof fn law_fields_stand_between_spaces(first: Seq<u8>, rest: Seq<u8>)
    requires
        forall|i: int| 0 <= i < first.len() ==> #[trigger] first[i] != 32,
    ensures
        fields(first) == seq![first],
        fields(first + seq![32u8] + rest) == seq![first] + fields(rest),
{
    let whole = first + seq![32u8] + rest;
    let at = first.len() as int;
    lemma_first_space(first, at);
    assert(whole[at] == 32);
    assert forall|i: int| 0 <= i < at implies #[trigger] whole[i] != SPACE by {
        assert(whole[i] == first[i]);
    }
    lemma_first_space(whole, at);
    assert(whole.take(at) =~= first);
    assert(whole.skip(at + 1) =~= rest);
}

/// A number is read digit by digit, after a plus sign or none; what is not a digit, and what does
/// not fit 32 bits, is no number, however it goes on.
pub proof fn law_decimal_is_read_digit_by_digit(text: Seq<u8>, b: u8)
    ensures
        parsed_decimal(Seq::<u8>::empty()) is None,
        parsed_decimal(seq![43u8]) is None,
        text.len() == 0 || text == seq![43u8] ==> parsed_decimal(text.push(b)) == (
        if 48 <= b <= 57 {
            Some((b - 48) as u32)
        } else {
            None
        }),
        text.len() > 0 && text != seq![43u8] ==> parsed_decimal(text.push(b)) == (
        match parsed_decimal(text) {
            Some(n) => if 48 <= b <= 57 && 10 * n + (b - 48) <= 0xffff_ffff {
                Some((10 * n + (b - 48)) as u32)
            } else {
                None
            },
            None => None,
        }),
{
    let more = text.push(b);
    let digits = without_plus(more);
    assert(decimal_value(Seq::<u8>::empty()) == 0);
    assert(without_plus(seq![43u8]) =~= Seq::<u8>::empty());
    if text.len() == 0 || text == seq![43u8] {
        if digits.len() > 0 {
            assert(digits =~= seq![b]);
            assert(digits.drop_last() =~= Seq::<u8>::empty());
            assert(digits[0] == b);
        }
    } else {
        let before = without_plus(text);
        assert(digits =~= before.push(b));
        assert(digits.drop_last() =~= before);
        assert(digits[digits.len() - 1] == b);
        assert(before.len() > 0) by {
            if before.len() == 0 {
                assert(text =~= seq![43u8]);
            }
        }
        if forall|i: int| 0 <= i < digits.len() ==> is_digit(#[trigger] digits[i]) {
            assert forall|i: int| 0 <= i < before.len() implies is_digit(#[trigger] before[i]) by {
                assert(digits[i] == before[i]);
            }
            lemma_value_is_positive(before);
        }
        if (forall|i: int| 0 <= i < before.len() ==> is_digit(#[trigger] before[i])) && is_digit(
            b,
        ) {
            assert forall|i: int| 0 <= i < digits.len() implies is_digit(#[trigger] digits[i]) by {
                if i < before.len() {
                    assert(digits[i] == before[i]);
                }
            }
        }
    }
}

/// Digits stand for a number that is not negative.
proof fn lemma_value_is_positive(digits: Seq<u8>)
    requires
        forall|i: int| 0 <= i < digits.len() ==> is_digit(#[trigger] digits[i]),
    ensures
        0 <= decimal_value(digits),
    decreases digits.len(),
{
    if digits.len() > 0 {
        assert forall|i: int| 0 <= i < digits.drop_last().len() implies is_digit(
            #[trigger] digits.drop_last()[i],
        ) by {
            assert(digits.drop_last()[i] == digits[i]);
        }
        lemma_value_is_positive(digits.drop_last());
    }
}

/// A number is written in digits that are read as that number, without a sign, and without a zero
/// before other digits.
pub proof fn law_decimal_is_written_in_digits(n: u32)
    ensures
        parsed_decimal(decimal_text(n as nat)) == Some(n),
        forall|i: int|
            0 <= i < decimal_text(n as nat).len() ==> 48 <= #[trigger] decimal_text(n as nat)[i]
                <= 57,
        n < 10 ==> decimal_text(n as nat) == seq![(48 + n) as u8],
        n >= 10 ==> decimal_text(n as nat)[0] != 48,
{
    law_decimal_round_trip(n);
    if n > 0 {
        lemma_first_digit(n as nat);
    }
}

/// The first digit of a number is not zero, but for zero itself.
proof fn lemma_first_digit(n: nat)
    requires
        0 < n,
    ensures
        decimal_text(n).len() > 0,
        decimal_text(n)[0] != DIGIT_ZERO,
    decreases n,
{
    if n >= 10 {
        lemma_first_digit(n / 10);
    }
}

/// The modes that texts name.
pub proof fn law_mode_names(text: Seq<u8>)
    ensures
        named_mode(text) == Some(GridMode::Spherical) <==> text == encode_utf8("spherical"@),
        named_mode(text) == Some(GridMode::Hemispherical) <==> text == encode_utf8(
            "hemispherical"@,
        ),
        named_mode(text) == Some(GridMode::Horizontal) <==> text == encode_utf8("Horizontal"@),
{
    lemma_modes_differ(GridMode::Spherical, GridMode::Hemispherical);
    lemma_modes_differ(GridMode::Spherical, GridMode::Horizontal);
    lemma_modes_differ(GridMode::Hemispherical, GridMode::Horizontal);
    encode_utf8_decode_utf8("spherical"@);
    encode_utf8_decode_utf8("hemispherical"@);
    encode_utf8_decode_utf8("Horizontal"@);
}

/// The settings file of an asset, field by field, with a space between each and the next.
pub proof fn law_settings_file(layout: Layout, scale: Seq<u8>, mode: GridMode)
    ensures
        settings_text(layout, scale, mode) == decimal_text(layout.grid_size as nat) + seq![32u8]
            + scale + seq![32u8] + encode_utf8(
            match mode {
                GridMode::Spherical => "spherical"@,
                GridMode::Hemispherical => "hemispherical"@,
                GridMode::Horizontal => "Horizontal"@,
            },
        ) + seq![32u8] + decimal_text(layout.base_tile_size as nat) + seq![32u8] + decimal_text(
            layout.packed_tile_offset.x as nat,
        ) + seq![32u8] + decimal_text(layout.packed_tile_offset.y as nat) + seq![32u8]
            + decimal_text(layout.packed_tile_size.x as nat) + seq![32u8] + decimal_text(
            layout.packed_tile_size.y as nat,
        ),
{
    let parts = settings_parts(layout, scale, mode);
    assert(parts.take(8) =~= parts);
    assert(parts.take(1)[0] == parts[0]);
    assert(joined(parts.take(1)) == parts[0]);
    lemma_joined_next(parts, 1);
    lemma_joined_next(parts, 2);
    lemma_joined_next(parts, 3);
    lemma_joined_next(parts, 4);
    lemma_joined_next(parts, 5);
    lemma_joined_next(parts, 6);
    lemma_joined_next(parts, 7);
}

/// One more text is joined to others after a space.
proof fn lemma_joined_next(parts: Seq<Seq<u8>>, n: int)
    requires
        0 < n < parts.len(),
    ensures
        joined(parts.take(n + 1)) == joined(parts.take(n)) + seq![32u8] + parts[n],
{
    assert(parts.take(n + 1).drop_last() =~= parts.take(n));
    assert(joined(parts.take(n)).push(SPACE) =~= joined(parts.take(n)) + seq![32u8]);
}

/// Texts are joined with a space between each and the next, and none before the first or after
/// the last.
pub proof fn law_texts_are_joined_by_spaces(parts: Seq<Seq<u8>>, last: Seq<u8>)
    ensures
        joined(Seq::<Seq<u8>>::empty()) == Seq::<u8>::empty(),
        parts.len() == 0 ==> joined(parts.push(last)) == last,
        parts.len() > 0 ==> joined(parts.push(last)) == joined(parts) + seq![32u8] + last,
{
    let more = parts.push(last);
    assert(more.drop_last() =~= parts);
    assert(joined(parts).push(SPACE) =~= joined(parts) + seq![32u8]);
}

} // verus!
