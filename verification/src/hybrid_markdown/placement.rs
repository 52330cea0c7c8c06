//! Where the items of OCR tokens lie on the page.

use crate::fractions::{
    fits, fraction, law_fractions_add_exactly, law_fractions_are_ordered, law_fractions_compare,
    law_fractions_multiply_exactly, law_fractions_subtract_exactly, law_one_and_zero_multiply,
    law_products_are_ordered, law_sums_are_ordered, law_sums_grow, law_zero_adds_nothing, law_zero_and_one_are_whole,
};
use crate::hybrid_markdown::tokens::{
    blank, lemma_item_of_token, line_box, token_fault, token_items, LineBox, OcrPageRequest, TokenView,
    BASELINE_SHARE_BITS, LEAST_LINE_HEIGHT_BITS, LEAST_WIDTH_BITS,
};
use crate::single::{Single, ONE_BITS};
use crate::types::ItemView;
use vstd::arithmetic::power2::pow2;
use vstd::prelude::*;

verus! {

/// How many of the first `n` tokens hold text.
pub open spec fn with_text(tokens: Seq<TokenView>, n: nat) -> nat
    decreases n,
{
    if n == 0 {
        0
    } else {
        with_text(tokens, (n - 1) as nat) + if blank(tokens[n - 1]) {
            0nat
        } else {
            1nat
        }
    }
}

/// The item of the token `i`: behind those of the tokens with text before it.
pub open spec fn item_of(request: OcrPageRequest, tokens: Seq<TokenView>, i: int) -> ItemView {
    token_items(request, tokens, tokens.len())[with_text(tokens, i as nat) as int]
}

proof fn lemma_item_count(request: OcrPageRequest, tokens: Seq<TokenView>, n: nat)
    ensures
        token_items(request, tokens, n).len() == with_text(tokens, n),
    decreases n,
{
    if n > 0 {
        lemma_item_count(request, tokens, (n - 1) as nat);
    }
}

proof fn lemma_item(request: OcrPageRequest, tokens: Seq<TokenView>, i: int)
    requires
        0 <= i < tokens.len(),
        !blank(tokens[i]),
    ensures
        item_of(request, tokens, i) == crate::hybrid_markdown::tokens::token_item(
            request,
            tokens[i],
            line_box(tokens, tokens[i].line_index, tokens.len())->0,
        ),
        with_text(tokens, i as nat) < token_items(request, tokens, tokens.len()).len(),
{
    lemma_item_count(request, tokens, i as nat);
    lemma_item_of_token(request, tokens, i, tokens.len());
}

/// Every token with text becomes one item, in order, with its text.
pub proof fn law_tokens_with_text_become_items(request: OcrPageRequest, tokens: Seq<TokenView>, i: int)
    requires
        0 <= i < tokens.len(),
        !blank(tokens[i]),
    ensures
        token_items(request, tokens, tokens.len()).len() == with_text(tokens, tokens.len()),
        item_of(request, tokens, i).text == tokens[i].text,
        item_of(request, tokens, i).page == request.page,
{
    lemma_item_count(request, tokens, tokens.len());
    lemma_item(request, tokens, i);
}

/// Where an item starts depends on where its token starts and on the page
/// alone: not on how wide the token is, on its line or on the other tokens.
pub proof fn law_items_start_where_their_tokens_do(
    request: OcrPageRequest,
    other: OcrPageRequest,
    tokens: Seq<TokenView>,
    others: Seq<TokenView>,
    i: int,
    j: int,
)
    requires
        0 <= i < tokens.len(),
        0 <= j < others.len(),
        !blank(tokens[i]),
        !blank(others[j]),
        tokens[i].bounds.x == others[j].bounds.x,
        request.x == other.x,
        request.width == other.width,
    ensures
        item_of(request, tokens, i).x == item_of(other, others, j).x,
{
    lemma_item(request, tokens, i);
    lemma_item(other, others, j);
}

/// A token at the left edge of the page becomes an item that starts there.
pub proof fn law_tokens_at_the_left_edge_start_there(request: OcrPageRequest, tokens: Seq<TokenView>, i: int)
    requires
        0 <= i < tokens.len(),
        !blank(tokens[i]),
        tokens[i].bounds.x == (Single { bits: 0 }),
        request.x.spec_finite(),
        request.width.spec_finite(),
    ensures
        item_of(request, tokens, i).x.spec_same(request.x),
{
    lemma_item(request, tokens, i);
    law_one_and_zero_multiply(request.width);
    law_zero_adds_nothing(request.x, (Single { bits: 0 }).spec_times(request.width));
}

/// An item starts as far to the right as its token: of two tokens, the one
/// further left has no item further right.
pub proof fn law_items_keep_the_order_of_left_edges(request: OcrPageRequest, tokens: Seq<TokenView>, i: int, j: int)
    requires
        0 <= i < tokens.len(),
        0 <= j < tokens.len(),
        !blank(tokens[i]),
        !blank(tokens[j]),
        tokens[i].bounds.x.spec_finite(),
        tokens[j].bounds.x.spec_finite(),
        tokens[i].bounds.x.spec_at_most(tokens[j].bounds.x),
        request.x.spec_finite(),
        request.width.spec_finite(),
        (Single { bits: 0 }).spec_at_most(request.width),
        tokens[j].bounds.x.spec_times(request.width).spec_finite(),
        tokens[i].bounds.x.spec_times(request.width).spec_finite(),
    ensures
        item_of(request, tokens, i).x.spec_at_most(item_of(request, tokens, j).x),
{
    lemma_item(request, tokens, i);
    lemma_item(request, tokens, j);
    let a = tokens[i].bounds.x;
    let b = tokens[j].bounds.x;
    law_products_are_ordered(a, b, request.width);
    law_sums_are_ordered(a.spec_times(request.width), b.spec_times(request.width), request.x);
}

/// The left edge of an item is that of the page box and the token's own, scaled
/// by the width of the page, wherever these numbers add up exactly.
pub proof fn law_left_edges_scale_with_the_page(
    request: OcrPageRequest,
    tokens: Seq<TokenView>,
    i: int,
    left: int,
    x: int,
    width: int,
    j: nat,
    k: nat,
)
    requires
        0 <= i < tokens.len(),
        !blank(tokens[i]),
        fraction(request.x, left, j + k),
        fraction(tokens[i].bounds.x, x, j),
        fraction(request.width, width, k),
        fits(x * width),
        fits(left + x * width),
        j + k <= 149,
    ensures
        fraction(item_of(request, tokens, i).x, left + x * width, j + k),
{
    lemma_item(request, tokens, i);
    let b = tokens[i].bounds;
    law_fractions_multiply_exactly(b.x, request.width, x, width, j, k);
    law_fractions_add_exactly(request.x, b.x.spec_times(request.width), left, x * width, j + k);
}

/// The width of an item is that of its token, scaled by the width of the page,
/// and at least half a point.
pub proof fn law_widths_scale_with_the_page(
    request: OcrPageRequest,
    tokens: Seq<TokenView>,
    i: int,
    x: int,
    width: int,
    j: nat,
    k: nat,
)
    requires
        0 <= i < tokens.len(),
        !blank(tokens[i]),
        fraction(tokens[i].bounds.width, x, j),
        fraction(request.width, width, k),
        fits(x * width),
        1 <= j + k <= 149,
    ensures
        fraction(item_of(request, tokens, i).width, if 2 * (x * width) < pow2(j + k) {
            pow2((j + k - 1) as nat) as int
        } else {
            x * width
        }, j + k),
{
    lemma_item(request, tokens, i);
    let b = tokens[i].bounds;
    law_fractions_multiply_exactly(b.width, request.width, x, width, j, k);
    lemma_half((j + k) as nat);
    let half = pow2((j + k - 1) as nat) as int;
    vstd::arithmetic::power2::lemma_pow2_unfold(j + k);
    law_fractions_compare(
        b.width.spec_times(request.width),
        Single { bits: LEAST_WIDTH_BITS },
        x * width,
        half,
        j + k,
    );
}

proof fn lemma_half(k: nat)
    requires
        k >= 1,
    ensures
        fraction(Single { bits: LEAST_WIDTH_BITS }, pow2((k - 1) as nat) as int, k),
{
    let half = Single { bits: LEAST_WIDTH_BITS };
    vstd::arithmetic::power2::lemma2_to64();
    let f = crate::ieee::single_format();
    crate::ieee::lemma_format_bounds(f);
    let m: nat = 0x3f00_0000;
    vstd::arithmetic::div_mod::lemma_fundamental_div_mod_converse(0x3f00_0000, 0x80_0000, 126, 0);
    assert(f.scale(m) == 125);
    assert(f.significand(m) == 0x80_0000);
    vstd::arithmetic::power2::lemma_pow2_adds(23, 125);
    vstd::arithmetic::power2::lemma_pow2_adds(148, 1);
    assert(crate::fractions::units_of(half) == pow2(148));
    assert(fraction(half, 1, 1));
    crate::fractions::law_fractions_extend(half, 1, 1, (k - 1) as nat);
    assert(1 * pow2((k - 1) as nat) == pow2((k - 1) as nat));
}

/// An item of a valid token starts on the page.
pub proof fn law_items_of_valid_tokens_start_on_the_page(request: OcrPageRequest, tokens: Seq<TokenView>, i: int)
    requires
        0 <= i < tokens.len(),
        !blank(tokens[i]),
        token_fault(tokens[i]) is None,
        request.x.spec_finite(),
        request.width.spec_finite(),
        (Single { bits: 0 }).spec_at_most(request.width),
    ensures
        request.x.spec_at_most(item_of(request, tokens, i).x),
        item_of(request, tokens, i).x.spec_at_most(request.x.spec_plus(request.width)),
{
    lemma_item(request, tokens, i);
    let b = tokens[i].bounds;
    let zero = Single { bits: 0 };
    let one = Single { bits: ONE_BITS };
    law_sums_grow(b.x, b.width);
    law_products_are_ordered(zero, b.x, request.width);
    law_products_are_ordered(b.x, one, request.width);
    law_one_and_zero_multiply(request.width);
    let part = b.x.spec_times(request.width);
    assert(part.spec_at_most(request.width));
    assert(part.spec_finite());
    law_sums_grow(request.x, part);
    law_sums_are_ordered(part, request.width, request.x);
}

/// The token stands on the line and holds text.
pub open spec fn on_line(token: TokenView, line: u32) -> bool {
    !blank(token) && token.line_index == line
}

/// The edges enclose a token.
pub open spec fn encloses(edges: LineBox, token: TokenView) -> bool {
    let b = token.bounds;
    &&& edges.left.spec_at_most(b.x)
    &&& edges.top.spec_at_most(b.y)
    &&& b.x.spec_plus(b.width).spec_at_most(edges.right)
    &&& b.y.spec_plus(b.height).spec_at_most(edges.bottom)
}

/// Some token on the line has this left, top, right or bottom edge.
pub open spec fn touches(edges: LineBox, tokens: Seq<TokenView>, line: u32) -> bool {
    &&& exists|i: int| 0 <= i < tokens.len() && on_line(#[trigger] tokens[i], line) && edges.left == tokens[i].bounds.x
    &&& exists|i: int| 0 <= i < tokens.len() && on_line(#[trigger] tokens[i], line) && edges.top == tokens[i].bounds.y
    &&& exists|i: int|
        0 <= i < tokens.len() && on_line(#[trigger] tokens[i], line) && edges.right == tokens[i].bounds.x.spec_plus(
            tokens[i].bounds.width,
        )
    &&& exists|i: int|
        0 <= i < tokens.len() && on_line(#[trigger] tokens[i], line) && edges.bottom == tokens[i].bounds.y.spec_plus(
            tokens[i].bounds.height,
        )
}

/// The bounds of the tokens are numbers, and so are their far edges.
pub open spec fn measured(tokens: Seq<TokenView>) -> bool {
    forall|i: int|
        0 <= i < tokens.len() ==> {
            let b = (#[trigger] tokens[i]).bounds;
            !b.x.spec_nan() && !b.y.spec_nan() && !b.x.spec_plus(b.width).spec_nan() && !b.y.spec_plus(
                b.height,
            ).spec_nan()
        }
}

proof fn lemma_line_box(tokens: Seq<TokenView>, line: u32, n: nat)
    requires
        n <= tokens.len(),
        measured(tokens),
    ensures
        match line_box(tokens, line, n) {
            Some(edges) => {
                &&& forall|i: int|
                    0 <= i < n && on_line(#[trigger] tokens[i], line) ==> encloses(edges, tokens[i])
                &&& touches(edges, tokens.take(n as int), line)
            },
            None => forall|i: int| 0 <= i < n ==> !on_line(#[trigger] tokens[i], line),
        },
    decreases n,
{
    if n > 0 {
        lemma_line_box(tokens, line, (n - 1) as nat);
        let short = tokens.take(n - 1);
        let long = tokens.take(n as int);
        assert forall|i: int| 0 <= i < short.len() implies #[trigger] short[i] == long[i] by {
        }
        let token = tokens[n - 1];
        assert(long[n - 1] == token);
        match line_box(tokens, line, (n - 1) as nat) {
            Some(edges) => {
                let a = choose|i: int|
                    0 <= i < short.len() && on_line(#[trigger] short[i], line) && edges.left == short[i].bounds.x;
                let b = choose|i: int|
                    0 <= i < short.len() && on_line(#[trigger] short[i], line) && edges.top == short[i].bounds.y;
                let c = choose|i: int|
                    0 <= i < short.len() && on_line(#[trigger] short[i], line) && edges.right
                        == short[i].bounds.x.spec_plus(short[i].bounds.width);
                let d = choose|i: int|
                    0 <= i < short.len() && on_line(#[trigger] short[i], line) && edges.bottom
                        == short[i].bounds.y.spec_plus(short[i].bounds.height);
                assert(on_line(long[a], line) && on_line(long[b], line) && on_line(long[c], line) && on_line(
                    long[d],
                    line,
                ));
                assert(tokens[a] == short[a] && tokens[b] == short[b] && tokens[c] == short[c] && tokens[d] == short[d]);
                if on_line(token, line) {
                    let all = line_box(tokens, line, n)->0;
                    assert(on_line(long[n - 1], line));
                    assert forall|i: int| 0 <= i < n && on_line(#[trigger] tokens[i], line) implies encloses(
                        all,
                        tokens[i],
                    ) by {
                        if i < n - 1 {
                            assert(encloses(edges, tokens[i]));
                        }
                    }
                }
            },
            None => {
                if on_line(token, line) {
                    assert(on_line(long[n - 1], line));
                }
            },
        }
    }
}

/// The edges of a line are the outermost edges of its tokens: they enclose
/// every token of the line, and each is the edge of one.
pub proof fn law_lines_enclose_their_tokens_closely(tokens: Seq<TokenView>, i: int)
    requires
        0 <= i < tokens.len(),
        !blank(tokens[i]),
        measured(tokens),
    ensures
        line_box(tokens, tokens[i].line_index, tokens.len()) matches Some(edges) && encloses(edges, tokens[i]) && touches(
            edges,
            tokens,
            tokens[i].line_index,
        ),
{
    lemma_line_box(tokens, tokens[i].line_index, tokens.len());
    assert(on_line(tokens[i], tokens[i].line_index));
    assert(tokens.take(tokens.len() as int) =~= tokens);
}

/// All tokens with text on the line have one top and one height.
pub open spec fn level(tokens: Seq<TokenView>, line: u32, top: Single, height: Single) -> bool {
    forall|i: int|
        0 <= i < tokens.len() && on_line(#[trigger] tokens[i], line) ==> tokens[i].bounds.y == top
            && tokens[i].bounds.height == height
}

proof fn lemma_level_box(tokens: Seq<TokenView>, line: u32, top: Single, height: Single, n: nat)
    requires
        n <= tokens.len(),
        level(tokens, line, top, height),
        !top.spec_nan(),
        !top.spec_plus(height).spec_nan(),
    ensures
        line_box(tokens, line, n) matches Some(edges) ==> edges.top == top && edges.bottom == top.spec_plus(height),
    decreases n,
{
    if n > 0 {
        lemma_level_box(tokens, line, top, height, (n - 1) as nat);
        assert(on_line(tokens[n - 1], line) ==> tokens[n - 1].bounds.y == top);
    }
}

/// The size of the items of a line is its height, scaled by the height of the
/// page, as far as that is a point or more; and their baseline lies within the
/// line, which counts down from the top of the page while the page counts up.
pub proof fn law_items_stand_on_their_line(
    request: OcrPageRequest,
    tokens: Seq<TokenView>,
    i: int,
    bottom: int,
    top: int,
    height: int,
    page: int,
    j: nat,
    k: nat,
    low: Single,
    high: Single,
)
    requires
        0 <= i < tokens.len(),
        !blank(tokens[i]),
        level(tokens, tokens[i].line_index, tokens[i].bounds.y, tokens[i].bounds.height),
        fraction(request.y, bottom, j + k),
        fraction(request.height, page, k),
        fraction(tokens[i].bounds.y, top, j),
        fraction(tokens[i].bounds.height, height, j),
        (Single { bits: LEAST_LINE_HEIGHT_BITS }).spec_at_most(tokens[i].bounds.height),
        pow2(j + k) <= height * page,
        fits(top),
        fits(top + height),
        fits(height),
        fits(pow2(j) as int),
        fits(pow2(j) - top),
        fits(pow2(j) - top - height),
        fits(height * page),
        fits((pow2(j) - top - height) * page),
        fits(bottom + (pow2(j) - top - height) * page),
        fits(bottom + (pow2(j) - top) * page),
        j + k <= 149,
        fraction(low, bottom + (pow2(j) - top - height) * page, j + k),
        fraction(high, bottom + (pow2(j) - top) * page, j + k),
    ensures
        fraction(item_of(request, tokens, i).font_size, height * page, j + k),
        item_of(request, tokens, i).height == item_of(request, tokens, i).font_size,
        low.spec_at_most(item_of(request, tokens, i).y),
        item_of(request, tokens, i).y.spec_at_most(high),
{
    let item = item_of(request, tokens, i);
    lemma_item(request, tokens, i);
    let b = tokens[i].bounds;
    let line = tokens[i].line_index;
    let zero = Single { bits: 0 };
    let one = Single { bits: ONE_BITS };
    law_fractions_add_exactly(b.y, b.height, top, height, j);
    lemma_level_box(tokens, line, b.y, b.height, tokens.len());
    crate::hybrid_markdown::tokens::lemma_line_of_token(tokens, i, tokens.len());
    let edges = line_box(tokens, line, tokens.len())->0;
    law_fractions_subtract_exactly(edges.bottom, edges.top, top + height, top, j);
    let span = edges.bottom.spec_minus(edges.top);
    assert(fraction(span, height, j));
    law_fractions_are_ordered(span, b.height, height, height, j);
    let tall = span.spec_max(Single { bits: LEAST_LINE_HEIGHT_BITS });
    assert(tall == span || tall.spec_same(b.height));
    if tall != span {
        assert(false) by {
            assert(span.spec_less(Single { bits: LEAST_LINE_HEIGHT_BITS }));
        }
    }
    law_fractions_multiply_exactly(span, request.height, height, page, j, k);
    let scaled = span.spec_times(request.height);
    law_zero_and_one_are_whole();
    crate::fractions::law_fractions_extend(one, 1, 0, j + k);
    assert(1 * pow2(j + k) == pow2(j + k));
    law_fractions_compare(scaled, one, height * page, pow2(j + k) as int, j + k);
    law_fractions_are_ordered(scaled, one, height * page, pow2(j + k) as int, j + k);
    let size = item.font_size;
    assert(size == scaled);
    crate::fractions::law_fractions_extend(one, 1, 0, j);
    assert(1 * pow2(j) == pow2(j));
    law_fractions_subtract_exactly(one, edges.top, pow2(j) as int, top, j);
    law_fractions_subtract_exactly(one.spec_minus(edges.top), span, pow2(j) - top, height, j);
    let rest = one.spec_minus(edges.top).spec_minus(span);
    law_fractions_multiply_exactly(rest, request.height, pow2(j) - top - height, page, j, k);
    let up = rest.spec_times(request.height);
    let under = (pow2(j) - top - height) * page;
    law_fractions_add_exactly(request.y, up, bottom, under, j + k);
    let floor = request.y.spec_plus(up);
    let share = Single { bits: BASELINE_SHARE_BITS };
    law_fractions_are_ordered(low, floor, bottom + under, bottom + under, j + k);
    crate::fractions::law_fractions_extend(zero, 0, 0, j + k);
    assert(0 * pow2(j + k) == 0);
    vstd::arithmetic::power2::lemma_pow2_pos(j + k);
    law_fractions_are_ordered(zero, size, 0, height * page, j + k);
    law_products_are_ordered(zero, share, size);
    law_products_are_ordered(share, one, size);
    law_one_and_zero_multiply(size);
    let part = size.spec_times(share);
    assert(zero.spec_at_most(part));
    assert(part.spec_at_most(size));
    assert(part.spec_finite());
    law_sums_grow(floor, part);
    assert(floor.spec_finite());
    assert(low.spec_at_most(floor));
    assert(floor.spec_at_most(item.y));
    law_sums_are_ordered(part, size, floor);
    assert((pow2(j) - top) * page == under + height * page) by (nonlinear_arith)
        requires
            under == (pow2(j) - top - height) * page,
    ;
    law_fractions_add_exactly(floor, size, bottom + under, height * page, j + k);
    law_fractions_are_ordered(floor.spec_plus(size), high, bottom + under + height * page, bottom + under + height * page, j + k);
}

} // verus!
