//! What the text of a line owes to its items.

use crate::fractions::{
    fits, fraction, law_bits_hold_a_fraction, law_fractions_are_ordered, law_fractions_divide_exactly,
    law_fractions_extend, law_fractions_subtract_exactly, law_order_is_that_of_values, law_zero_and_one_are_whole, whole,
};
use crate::ieee::lemma_rounded_of_units;
use crate::markdown::cleaning::{lemma_visible_sum, visible};
use crate::single::Single;
use crate::text::{ends_with, starts_with, trimmed};
use crate::types::{
    closing_marks, height_difference, line_text, no_style, opening_marks, own_style, plain_text, space_between,
    styled_text, with_item, Formatting, ItemView, Style, Styled, EIGHTH_TURN_BITS, FIVE_EIGHTHS_TURN_BITS,
    FULL_TURN_BITS, SEVEN_EIGHTHS_TURN_BITS, SIZE_CHANGE_BITS, THREE_EIGHTHS_TURN_BITS, UNIT_BITS,
};
use crate::unicode::white_space;
use vstd::prelude::*;

verus! {

/// An angle of less than a full turn stays what it is.
pub proof fn law_angles_within_a_turn_stay(item: ItemView)
    requires
        item.rotation.spec_finite(),
        item.rotation.bits < crate::single::SIGN_BIT,
        item.rotation.spec_less(Single { bits: FULL_TURN_BITS }),
    ensures
        item.angle() == item.rotation,
{
    reveal(Single::spec_rem_euclid);
    let f = crate::ieee::single_format();
    crate::ieee::lemma_format_bounds(f);
    let r = item.rotation;
    let turn = Single { bits: FULL_TURN_BITS };
    law_order_is_that_of_values(r, turn);
    let a = f.units(r.signed().magnitude as nat);
    let b = f.units(turn.signed().magnitude as nat);
    assert(a < b);
    vstd::arithmetic::div_mod::lemma_small_mod(a, b);
    lemma_rounded_of_units(f, r.signed().magnitude as nat);
    law_order_is_that_of_values(r, Single { bits: 0 });
    law_zero_and_one_are_whole();
}

proof fn lemma_turns()
    ensures
        whole(Single { bits: EIGHTH_TURN_BITS }, 45),
        whole(Single { bits: THREE_EIGHTHS_TURN_BITS }, 135),
        whole(Single { bits: FIVE_EIGHTHS_TURN_BITS }, 225),
        whole(Single { bits: SEVEN_EIGHTHS_TURN_BITS }, 315),
        whole(Single { bits: FULL_TURN_BITS }, 360),
{
    vstd::arithmetic::power2::lemma2_to64();
    law_bits_hold_a_fraction(Single { bits: EIGHTH_TURN_BITS }, 132, 45, 18, 0);
    law_bits_hold_a_fraction(Single { bits: THREE_EIGHTHS_TURN_BITS }, 134, 135, 16, 0);
    law_bits_hold_a_fraction(Single { bits: FIVE_EIGHTHS_TURN_BITS }, 134, 225, 16, 0);
    law_bits_hold_a_fraction(Single { bits: SEVEN_EIGHTHS_TURN_BITS }, 135, 315, 15, 0);
    law_bits_hold_a_fraction(Single { bits: FULL_TURN_BITS }, 135, 360, 15, 0);
}

/// Text reads along the line where it is turned by less than half a right angle
/// from either direction, and is upright where that direction is the right. The
/// angle counts in degrees.
pub proof fn law_direction_goes_by_the_nearest_quarter_turn(item: ItemView, degrees: int)
    requires
        whole(item.rotation, degrees),
        item.rotation.bits < crate::single::SIGN_BIT,
        0 <= degrees < 360,
    ensures
        item.is_horizontal() <==> degrees <= 45 || 135 <= degrees <= 225 || 315 <= degrees,
        item.is_upright() <==> degrees <= 45 || 315 <= degrees,
        item.is_upside_down() <==> 135 <= degrees <= 225,
{
    lemma_turns();
    let r = item.rotation;
    law_fractions_are_ordered(r, Single { bits: FULL_TURN_BITS }, degrees, 360, 0);
    law_angles_within_a_turn_stay(item);
    law_fractions_are_ordered(r, Single { bits: EIGHTH_TURN_BITS }, degrees, 45, 0);
    law_fractions_are_ordered(Single { bits: EIGHTH_TURN_BITS }, r, 45, degrees, 0);
    law_fractions_are_ordered(r, Single { bits: THREE_EIGHTHS_TURN_BITS }, degrees, 135, 0);
    law_fractions_are_ordered(Single { bits: FIVE_EIGHTHS_TURN_BITS }, r, 225, degrees, 0);
    law_fractions_are_ordered(r, Single { bits: SEVEN_EIGHTHS_TURN_BITS }, degrees, 315, 0);
    law_fractions_are_ordered(Single { bits: SEVEN_EIGHTHS_TURN_BITS }, r, 315, degrees, 0);
}

/// The line of an item is its baseline without the shift of a script: its lower
/// edge, or its upper edge where it stands on its head.
pub proof fn law_lines_run_along_the_baseline(item: ItemView, degrees: int, y: int, height: int, shift: int, k: nat)
    requires
        whole(item.rotation, degrees),
        item.rotation.bits < crate::single::SIGN_BIT,
        0 <= degrees < 360,
        fraction(item.y, y, k),
        fraction(item.height, height, k),
        fraction(item.baseline_shift, shift, k),
        k <= 149,
        fits(y + height),
        fits(y - shift),
        fits(y + height - shift),
    ensures
        135 <= degrees <= 225 ==> fraction(item.line_y(), y + height - shift, k),
        !(135 <= degrees <= 225) ==> fraction(item.line_y(), y - shift, k),
        item.is_script() <==> shift != 0,
        item.is_raised() <==> shift > 0,
        item.is_lowered() <==> shift < 0,
{
    law_direction_goes_by_the_nearest_quarter_turn(item, degrees);
    crate::fractions::law_fractions_add_exactly(item.y, item.height, y, height, k);
    law_fractions_subtract_exactly(item.y, item.baseline_shift, y, shift, k);
    law_fractions_subtract_exactly(item.y.spec_plus(item.height), item.baseline_shift, y + height, shift, k);
    crate::fractions::law_zero_is_a_fraction(Single { bits: 0 }, k);
    crate::fractions::law_zero_fractions(item.baseline_shift, shift, k);
    law_fractions_are_ordered(Single { bits: 0 }, item.baseline_shift, 0, shift, k);
    law_fractions_are_ordered(item.baseline_shift, Single { bits: 0 }, shift, 0, k);
}

/// Two words that stand at about one height are set apart by one space, unless
/// the line joins them.
pub proof fn law_words_are_set_apart(a: ItemView, b: ItemView, joined: Seq<bool>)
    requires
        !a.is_script(),
        !b.is_script(),
        !ends_with(a.text, '-'),
        !ends_with(a.text, ' '),
        !starts_with(b.text, '-'),
        !starts_with(b.text, ' '),
        trimmed(b.text) != "-"@,
        !(Single { bits: UNIT_BITS }).spec_less(height_difference(b, a)),
    ensures
        joined.len() <= 1 || !joined[1] ==> plain_text(seq![a, b], joined, 2) == a.text.push(' ') + b.text,
        joined.len() > 1 && joined[1] ==> plain_text(seq![a, b], joined, 2) == a.text + b.text,
{
    let items = seq![a, b];
    reveal_with_fuel(plain_text, 3);
    reveal_strlit(" ");
    assert(plain_text(items, joined, 0) =~= Seq::<char>::empty());
    assert(plain_text(items, joined, 1) =~= a.text);
    if joined.len() > 1 && joined[1] {
        assert(plain_text(items, joined, 2) =~= a.text + b.text);
    } else {
        assert(plain_text(items, joined, 2) =~= a.text.push(' ') + b.text);
    }
}

/// A hyphen or a space on either side of the seam lets no space in.
pub proof fn law_hyphens_and_spaces_close_the_seam(a: ItemView, b: ItemView, joined: Seq<bool>)
    requires
        !a.is_script(),
        !b.is_script(),
        ends_with(a.text, '-') || ends_with(a.text, ' ') || starts_with(b.text, '-') || starts_with(b.text, ' '),
    ensures
        plain_text(seq![a, b], joined, 2) == a.text + b.text,
{
    let items = seq![a, b];
    reveal_with_fuel(plain_text, 3);
    assert(plain_text(items, joined, 0) =~= Seq::<char>::empty());
    assert(plain_text(items, joined, 1) =~= a.text);
    assert(plain_text(items, joined, 2) =~= a.text + b.text);
}

proof fn lemma_size_change()
    ensures
        fraction(Single { bits: SIZE_CHANGE_BITS }, 0xd9_999a, 24),
{
    vstd::arithmetic::power2::lemma2_to64();
    law_bits_hold_a_fraction(Single { bits: SIZE_CHANGE_BITS }, 126, 0xd9_999a, 0, 24);
}

/// A text at three quarters of the size of its neighbour, more than a point off
/// its height, is a note on it and joins it; at seven eighths it is a word of
/// its own.
pub proof fn law_small_shifted_text_is_a_note(a: ItemView, b: ItemView, result: Seq<char>, n: int, k: nat)
    requires
        !a.is_script(),
        !b.is_script(),
        fraction(a.font_size, n, k),
        n > 0,
        k + 3 <= 149,
        (Single { bits: UNIT_BITS }).spec_less(height_difference(b, a)),
        !ends_with(result, '-'),
        !ends_with(result, ' '),
        !starts_with(b.text, '-'),
        !starts_with(b.text, ' '),
        trimmed(b.text) != "-"@,
    ensures
        fraction(b.font_size, 3 * n, 2 + k) ==> !space_between(a, b, result, false),
        fraction(b.font_size, 7 * n, 3 + k) ==> space_between(a, b, result, false),
{
    lemma_size_change();
    let limit = Single { bits: SIZE_CHANGE_BITS };
    vstd::arithmetic::power2::lemma2_to64();
    if fraction(b.font_size, 3 * n, 2 + k) {
        law_fractions_divide_exactly(b.font_size, a.font_size, 3, n, 2, k);
        let q = b.font_size.spec_over(a.font_size);
        law_fractions_extend(q, 3, 2, 22);
        assert(3 * vstd::arithmetic::power2::pow2(22) == 0xc0_0000);
        law_fractions_are_ordered(q, limit, 0xc0_0000, 0xd9_999a, 24);
    }
    if fraction(b.font_size, 7 * n, 3 + k) {
        law_fractions_divide_exactly(b.font_size, a.font_size, 7, n, 3, k);
        let q = b.font_size.spec_over(a.font_size);
        law_fractions_extend(q, 7, 3, 21);
        assert(7 * vstd::arithmetic::power2::pow2(21) == 0xe0_0000);
        law_fractions_are_ordered(q, limit, 0xe0_0000, 0xd9_999a, 24);
        lemma_larger_over_smaller(a, b, n, k);
    }
}

/// The quotient of a number by one no larger is at least one.
proof fn lemma_larger_over_smaller(a: ItemView, b: ItemView, n: int, k: nat)
    requires
        fraction(a.font_size, n, k),
        fraction(b.font_size, 7 * n, 3 + k),
        n > 0,
        k + 3 <= 149,
    ensures
        !a.font_size.spec_over(b.font_size).spec_less(Single { bits: SIZE_CHANGE_BITS }),
{
    lemma_size_change();
    let limit = Single { bits: SIZE_CHANGE_BITS };
    let one = Single { bits: crate::single::ONE_BITS };
    law_zero_and_one_are_whole();
    crate::fractions::law_zero_is_a_fraction(Single { bits: 0 }, 3 + k);
    law_fractions_are_ordered(Single { bits: 0 }, b.font_size, 0, 7 * n, 3 + k);
    law_fractions_divide_exactly(b.font_size, b.font_size, 1, 7 * n, 0, 3 + k);
    vstd::arithmetic::power2::lemma2_to64();
    law_fractions_extend(a.font_size, n, k, 3);
    law_fractions_are_ordered(b.font_size, a.font_size, 7 * n, n * 8, 3 + k);
    crate::fractions::law_quotients_are_ordered(b.font_size, a.font_size, b.font_size);
    let unit = b.font_size.spec_over(b.font_size);
    law_fractions_extend(unit, 1, 0, 24);
    law_fractions_are_ordered(limit, unit, 0xd9_999a, 0x100_0000, 24);
    let q = a.font_size.spec_over(b.font_size);
    if q.spec_less(limit) {
        crate::single::law_order_is_total(q, limit);
        law_order_is_that_of_values(limit, unit);
        law_order_is_that_of_values(q, limit);
        law_order_is_that_of_values(unit, q);
    }
}

/// The visible characters of the first `n` items, one item after the other.
pub open spec fn visible_items(items: Seq<ItemView>, n: nat) -> Seq<char>
    decreases n,
{
    if n == 0 || n > items.len() {
        Seq::empty()
    } else {
        visible_items(items, (n - 1) as nat) + visible(items[n - 1].text)
    }
}

/// A line without scripts says what its items say, in their order: only white
/// space comes between them.
pub proof fn law_lines_say_what_their_items_say(items: Seq<ItemView>, joined: Seq<bool>, n: nat)
    requires
        n <= items.len(),
        forall|i: int| 0 <= i < n ==> !(#[trigger] items[i]).is_script() && !items[i].is_raised()
            && !items[i].is_lowered(),
    ensures
        visible(plain_text(items, joined, n)) == visible_items(items, n),
    decreases n,
{
    if n > 0 {
        let i = n - 1;
        law_lines_say_what_their_items_say(items, joined, i as nat);
        let before = plain_text(items, joined, i as nat);
        reveal_strlit(" ");
        assert(!items[i].is_script());
        assert(white_space(' '));
        assert(" "@ =~= seq![' ']);
        assert(visible(seq![' ']) =~= Seq::<char>::empty()) by {
            reveal_with_fuel(visible, 2);
            assert(seq![' '].drop_last() =~= Seq::<char>::empty());
        }
        lemma_visible_sum(before, " "@);
        lemma_visible_sum(before + " "@, items[i].text);
        lemma_visible_sum(before, items[i].text);
        if i > 0 {
            assert(!items[i - 1].is_script());
        }
        let none = Seq::<char>::empty();
        assert(before + none =~= before);
        assert(before + " "@ + none =~= before + " "@);
        assert(visible(before) + none =~= visible(before));
    }
}

/// A raised text is wrapped as a superscript and a lowered one as a subscript;
/// any other stands bare.
pub proof fn law_scripts_are_wrapped(item: ItemView)
    ensures
        item.is_raised() ==> line_text(
            seq![item],
            seq![],
            Formatting { bold: false, italic: false, decorations: false },
        ) == seq!['<', 's', 'u', 'p', '>'] + item.text + seq!['<', '/', 's', 'u', 'p', '>'],
        item.is_lowered() ==> line_text(
            seq![item],
            seq![],
            Formatting { bold: false, italic: false, decorations: false },
        ) == seq!['<', 's', 'u', 'b', '>'] + item.text + seq!['<', '/', 's', 'u', 'b', '>'],
        !item.is_raised() && !item.is_lowered() ==> line_text(
            seq![item],
            seq![],
            Formatting { bold: false, italic: false, decorations: false },
        ) == item.text,
{
    reveal_with_fuel(plain_text, 2);
    reveal_strlit("sup");
    reveal_strlit("sub");
    reveal_strlit("<");
    reveal_strlit("</");
    reveal_strlit(">");
    let plain = Formatting { bold: false, italic: false, decorations: false };
    let got = line_text(seq![item], seq![], plain);
    if item.is_raised() {
        assert(got =~= seq!['<', 's', 'u', 'p', '>'] + item.text + seq!['<', '/', 's', 'u', 'p', '>']);
    } else if item.is_lowered() {
        assert(got =~= seq!['<', 's', 'u', 'b', '>'] + item.text + seq!['<', '/', 's', 'u', 'b', '>']);
    } else {
        assert(got =~= item.text);
    }
}

/// A numerator over a denominator is written as a fraction: nothing but a slash
/// comes between the two.
pub proof fn law_stacked_digits_are_a_fraction(a: ItemView, b: ItemView, joined: Seq<bool>)
    requires
        crate::types::stacked_fraction(a, b),
        !b.is_raised(),
        a.is_script(),
    ensures
        plain_text(seq![a, b], joined, 2) == seq!['<', 's', 'u', 'p', '>'] + a.text + seq![
            '<',
            '/',
            's',
            'u',
            'p',
            '>',
            '/',
            '<',
            's',
            'u',
            'b',
            '>',
        ] + b.text + seq!['<', '/', 's', 'u', 'b', '>'],
{
    reveal_with_fuel(plain_text, 3);
    reveal_strlit("sup");
    reveal_strlit("sub");
    reveal_strlit("<");
    reveal_strlit("</");
    reveal_strlit(">");
    reveal_strlit("/");
    let items = seq![a, b];
    assert(plain_text(items, joined, 0) =~= Seq::<char>::empty());
    let first = plain_text(items, joined, 1);
    assert(first =~= seq!['<', 's', 'u', 'p', '>'] + a.text + seq!['<', '/', 's', 'u', 'p', '>']);
    assert(plain_text(items, joined, 2) =~= first + seq!['/'] + (seq!['<', 's', 'u', 'b', '>'] + b.text + seq![
        '<',
        '/',
        's',
        'u',
        'b',
        '>',
    ]));
    assert(first + seq!['/'] + (seq!['<', 's', 'u', 'b', '>'] + b.text + seq!['<', '/', 's', 'u', 'b', '>']) =~= seq![
        '<',
        's',
        'u',
        'p',
        '>',
    ] + a.text + seq!['<', '/', 's', 'u', 'p', '>', '/', '<', 's', 'u', 'b', '>'] + b.text + seq![
        '<',
        '/',
        's',
        'u',
        'b',
        '>',
    ]);
}

/// A line of one item is its trimmed text inside the marks of its styles: two
/// stars for bold, one for italic, three for both, and a tag for a decoration,
/// which takes the place of the stars. A style that is not asked for sets no
/// mark.
pub proof fn law_styles_wrap_their_text(item: ItemView, formatting: Formatting)
    requires
        !item.is_script(),
        !item.is_raised(),
        !item.is_lowered(),
        trimmed(item.text).len() > 0,
        formatting.bold || formatting.italic || formatting.decorations,
    ensures
        ({
            let got = line_text(seq![item], seq![], formatting);
            let text = trimmed(item.text);
            let struck = item.is_strikeout && formatting.decorations;
            let under = item.is_underline && formatting.decorations;
            let strong = item.is_bold && formatting.bold;
            let slanted = item.is_italic && formatting.italic;
            &&& struck ==> got == seq!['<', 's', '>'] + text + seq!['<', '/', 's', '>']
            &&& under && !struck ==> got == seq!['<', 'u', '>'] + text + seq!['<', '/', 'u', '>']
            &&& !under && !struck && strong && slanted ==> got == seq!['*', '*', '*'] + text + seq!['*', '*', '*']
            &&& !under && !struck && strong && !slanted ==> got == seq!['*', '*'] + text + seq!['*', '*']
            &&& !under && !struck && !strong && slanted ==> got == seq!['*'] + text + seq!['*']
            &&& !under && !struck && !strong && !slanted ==> got == text
        }),
{
    reveal_with_fuel(styled_text, 2);
    reveal_strlit("*");
    reveal_strlit("**");
    reveal_strlit("<u>");
    reveal_strlit("</u>");
    reveal_strlit("<s>");
    reveal_strlit("</s>");
    let got = line_text(seq![item], seq![], formatting);
    let text = trimmed(item.text);
    let own = own_style(item, formatting);
    assert(seq![item][0] == item);
    let opened = opening_marks(no_style(), own);
    let closed = closing_marks(own, no_style());
    assert(closing_marks(no_style(), own) =~= Seq::<char>::empty());
    assert(got =~= opened + text + closed);
    if own.strikeout {
        assert(opened =~= seq!['<', 's', '>'] && closed =~= seq!['<', '/', 's', '>']);
    } else if own.underline {
        assert(opened =~= seq!['<', 'u', '>'] && closed =~= seq!['<', '/', 'u', '>']);
    } else if own.bold && own.italic {
        assert(opened =~= seq!['*', '*', '*'] && closed =~= seq!['*', '*', '*']);
    } else if own.bold {
        assert(opened =~= seq!['*', '*'] && closed =~= seq!['*', '*']);
    } else if own.italic {
        assert(opened =~= seq!['*'] && closed =~= seq!['*']);
    } else {
        assert(opened =~= Seq::<char>::empty() && closed =~= Seq::<char>::empty());
        assert(got =~= text);
    }
}

/// Between two items of one style no mark stands: only the space that would
/// stand between them without it.
pub proof fn law_one_style_is_opened_once(
    before: Styled,
    prev: ItemView,
    item: ItemView,
    joined: bool,
    formatting: Formatting,
)
    requires
        !item.is_script(),
        !item.is_raised(),
        !item.is_lowered(),
        !prev.is_script(),
        !prev.is_raised(),
        before.text.len() > 0,
        before.style == own_style(item, formatting),
        trimmed(item.text).len() > 0,
    ensures
        ({
            let after = with_item(before, Some(prev), item, joined, formatting);
            &&& after.style == before.style
            &&& after.text == before.text + trimmed(item.text) || after.text == before.text.push(' ') + trimmed(item.text)
            &&& space_between(prev, item, before.text, joined) ==> after.text == before.text.push(' ') + trimmed(
                item.text,
            )
            &&& !space_between(prev, item, before.text, joined) && !starts_with(item.text, ' ') ==> after.text
                == before.text + trimmed(item.text)
        }),
{
    reveal_strlit(" ");
    let after = with_item(before, Some(prev), item, joined, formatting);
    assert(closing_marks(before.style, before.style) =~= Seq::<char>::empty());
    assert(opening_marks(before.style, before.style) =~= Seq::<char>::empty());
    let spaced = space_between(prev, item, before.text, joined) || (starts_with(item.text, ' ') && !ends_with(
        before.text,
        ' ',
    ));
    if spaced {
        assert(after.text =~= before.text.push(' ') + trimmed(item.text));
    } else {
        assert(after.text =~= before.text + trimmed(item.text));
    }
}

/// What a style change writes: the marks of the styles that end come before the
/// space, and those of the styles that begin behind it.
pub proof fn law_marks_hug_their_words(before: Styled, prev: ItemView, item: ItemView, joined: bool)
    requires
        plain_pair(prev, item),
        before.text.len() > 0,
        trimmed(item.text).len() > 0,
        space_between(prev, item, before.text, joined),
    ensures
        before.style == no_style() && item.is_bold && !item.is_italic ==> with_item(
            before,
            Some(prev),
            item,
            joined,
            Formatting { bold: true, italic: true, decorations: false },
        ).text == before.text + seq![' ', '*', '*'] + trimmed(item.text),
        before.style == (Style { bold: true, italic: false, underline: false, strikeout: false }) && !item.is_bold
            && !item.is_italic ==> with_item(
            before,
            Some(prev),
            item,
            joined,
            Formatting { bold: true, italic: true, decorations: false },
        ).text == before.text + seq!['*', '*', ' '] + trimmed(item.text),
{
    reveal_strlit(" ");
    reveal_strlit("**");
    reveal_strlit("*");
    let formatting = Formatting { bold: true, italic: true, decorations: false };
    let after = with_item(before, Some(prev), item, joined, formatting);
    let own = own_style(item, formatting);
    if before.style == no_style() && item.is_bold && !item.is_italic {
        assert(closing_marks(before.style, own) =~= Seq::<char>::empty());
        assert(opening_marks(before.style, own) =~= seq!['*', '*']);
        assert(after.text =~= before.text + seq![' ', '*', '*'] + trimmed(item.text));
    }
    if before.style == (Style { bold: true, italic: false, underline: false, strikeout: false }) && !item.is_bold
        && !item.is_italic {
        assert(closing_marks(before.style, own) =~= seq!['*', '*']);
        assert(opening_marks(before.style, own) =~= Seq::<char>::empty());
        assert(after.text =~= before.text + seq!['*', '*', ' '] + trimmed(item.text));
    }
}

/// Two items of which neither is a script.
pub open spec fn plain_pair(prev: ItemView, item: ItemView) -> bool {
    !prev.is_script() && !prev.is_raised() && !item.is_script() && !item.is_raised() && !item.is_lowered()
}

/// The space between two runs is measured from the end of the left one to the
/// start of the right one, whichever comes first.
pub proof fn law_spaces_lie_between_the_runs(a: ItemView, b: ItemView, x: int, w: int, next: int, k: nat)
    requires
        fraction(a.x, x, k),
        fraction(a.width, w, k),
        fraction(b.x, next, k),
        x < next,
        fits(x + w),
        fits(next - (x + w)),
        k <= 149,
    ensures
        fraction(crate::types::item_gap(a, b), next - (x + w), k),
        fraction(crate::types::item_gap(b, a), next - (x + w), k),
{
    law_fractions_are_ordered(a.x, b.x, x, next, k);
    law_fractions_are_ordered(b.x, a.x, next, x, k);
    crate::fractions::law_fractions_add_exactly(a.x, a.width, x, w, k);
    law_fractions_subtract_exactly(b.x, a.x.spec_plus(a.width), next, x + w, k);
}

/// Runs share a line where their lines are at most half the larger size apart,
/// up or down; otherwise they stand on different ones.
pub proof fn law_lines_are_half_a_size_apart(a: ItemView, b: ItemView, y: int, other: int, m: int, n: int, k: nat)
    requires
        fraction(a.line_y(), y, k),
        fraction(b.line_y(), other, k),
        fraction(a.font_size, m, k),
        fraction(b.font_size, n, k),
        fits(y - other),
        fits(m),
        fits(n),
        k + 1 <= 149,
    ensures
        crate::types::same_visual_line(a, b) <==> {
            let d = if y < other {
                other - y
            } else {
                y - other
            };
            2 * d <= m || 2 * d <= n
        },
        crate::types::other_visual_line(a, b) <==> !crate::types::same_visual_line(a, b),
{
    vstd::arithmetic::power2::lemma2_to64();
    let half = Single { bits: crate::types::HALF_BITS };
    law_bits_hold_a_fraction(half, 126, 1, 23, 1);
    crate::fractions::law_fractions_compare(a.font_size, b.font_size, m, n, k);
    let larger = if m < n {
        n
    } else {
        m
    };
    let size = a.font_size.spec_max(b.font_size);
    crate::fractions::law_fractions_multiply_exactly(size, half, larger, 1, k, 1);
    let d = a.line_y().spec_minus(b.line_y());
    law_fractions_subtract_exactly(a.line_y(), b.line_y(), y, other, k);
    crate::fractions::law_fractions_negate_exactly(d, y - other, k);
    let zero = Single { bits: 0 };
    crate::fractions::law_zero_is_a_fraction(zero, k);
    law_fractions_are_ordered(zero, d, 0, y - other, k);
    law_fractions_are_ordered(d, zero, y - other, 0, k);
    crate::fractions::law_zero_fractions(d, y - other, k);
    let distance = if y < other {
        other - y
    } else {
        y - other
    };
    assert(d.spec_absolute() == if d.bits < crate::single::SIGN_BIT {
        d
    } else {
        d.spec_negated()
    });
    assert(fraction(d.spec_absolute(), distance, k));
    law_fractions_extend(d.spec_absolute(), distance, k, 1);
    law_fractions_are_ordered(d.spec_absolute(), size.spec_times(half), distance * 2, larger, k + 1);
    law_fractions_are_ordered(size.spec_times(half), d.spec_absolute(), larger, distance * 2, k + 1);
}

/// A run without a width is taken to be half its size wide for each character.
pub proof fn law_missing_widths_are_estimated(item: ItemView, w: int, size: int, k: nat)
    requires
        fraction(item.width, w, k),
        fraction(item.font_size, size, k),
        k + 1 <= 149,
        fits(item.text.len() as int),
        fits(item.text.len() * size),
    ensures
        w > 0 ==> crate::text_utils::width_or_estimate(item) == item.width,
        w <= 0 ==> fraction(crate::text_utils::width_or_estimate(item), item.text.len() * size, k + 1),
{
    vstd::arithmetic::power2::lemma2_to64();
    let half = Single { bits: crate::types::HALF_BITS };
    law_bits_hold_a_fraction(half, 126, 1, 23, 1);
    let zero = Single { bits: 0 };
    crate::fractions::law_zero_is_a_fraction(zero, k);
    law_fractions_are_ordered(zero, item.width, 0, w, k);
    let n = item.text.len();
    crate::fractions::law_integers_are_whole(n as i64);
    let count = Single::spec_from_natural(n);
    crate::fractions::law_fractions_multiply_exactly(count, item.font_size, n as int, size, 0, k);
    crate::fractions::law_fractions_multiply_exactly(count.spec_times(item.font_size), half, n * size, 1, k, 1);
}

} // verus!
