//! OCR tokens: their validity, and the text items that they become.

use crate::hybrid_markdown::error::HybridMarkdownError;
use crate::single::{Single, ONE_BITS};
use crate::text::{is_blank_text, trimmed};
use crate::types::{views, ItemKind, ItemType, ItemView, TextItem};
use vstd::prelude::*;

verus! {

/// `0.001`
pub const LEAST_LINE_HEIGHT_BITS: u32 = 0x3a83_126f;

/// `0.8`
pub const BASELINE_SHARE_BITS: u32 = 0x3f4c_cccd;

/// `0.5`
pub const LEAST_WIDTH_BITS: u32 = 0x3f00_0000;

/// A normalized OCR rectangle in top-left origin coordinates.
#[derive(Clone, Copy, Debug, PartialEq, Eq, Structural)]
pub struct NormalizedRect {
    pub x: Single,
    pub y: Single,
    pub width: Single,
    pub height: Single,
}

/// One OCR token with page-relative layout evidence.
#[derive(Debug)]
pub struct OcrToken {
    pub text: String,
    pub bounds: NormalizedRect,
    pub line_index: u32,
    pub confidence: Single,
}

/// OCR output for one requested page.
#[derive(Debug)]
pub struct OcrPageResult {
    /// 1-indexed page number.
    pub page: u32,
    pub tokens: Vec<OcrToken>,
}

/// A page that a host OCR adapter must render and recognize.
#[derive(Debug)]
pub struct OcrPageRequest {
    /// 1-indexed page number.
    pub page: u32,
    pub reasons: Vec<String>,
    /// Visible page-box origin and dimensions in PDF points.
    pub x: Single,
    pub y: Single,
    pub width: Single,
    pub height: Single,
    pub expected_aspect_ratio: Single,
}

/// What is wrong with a token.
#[derive(Clone, Copy, Debug, PartialEq, Eq, Structural)]
pub enum TokenFault {
    NotFinite,
    OutOfBounds,
    BadConfidence,
}

impl TokenFault {
    pub open spec fn spec_reason(self) -> Seq<char> {
        match self {
            TokenFault::NotFinite => "geometry and confidence must be finite"@,
            TokenFault::OutOfBounds => "bounds must stay inside normalized 0..1 page coordinates"@,
            TokenFault::BadConfidence => "confidence must be between 0 and 1"@,
        }
    }

    pub fn reason(self) -> (r: &'static str)
        ensures
            r@ == self.spec_reason(),
    {
        match self {
            TokenFault::NotFinite => "geometry and confidence must be finite",
            TokenFault::OutOfBounds => "bounds must stay inside normalized 0..1 page coordinates",
            TokenFault::BadConfidence => "confidence must be between 0 and 1",
        }
    }
}

/// What a token is.
#[verifier::ext_equal]
pub struct TokenView {
    pub text: Seq<char>,
    pub bounds: NormalizedRect,
    pub line_index: u32,
    pub confidence: Single,
}

impl View for OcrToken {
    type V = TokenView;

    open spec fn view(&self) -> TokenView {
        TokenView {
            text: self.text@,
            bounds: self.bounds,
            line_index: self.line_index,
            confidence: self.confidence,
        }
    }
}

/// What tokens are.
pub open spec fn token_views(tokens: Seq<OcrToken>) -> Seq<TokenView> {
    Seq::new(tokens.len(), |i: int| tokens[i]@)
}

/// The first thing wrong with a token, if anything is.
pub open spec fn token_fault(token: TokenView) -> Option<TokenFault> {
    let zero = Single { bits: 0 };
    let one = Single { bits: ONE_BITS };
    let b = token.bounds;
    if !(b.x.spec_finite() && b.y.spec_finite() && b.width.spec_finite() && b.height.spec_finite()
        && token.confidence.spec_finite()) {
        Some(TokenFault::NotFinite)
    } else if b.x.spec_less(zero) || b.y.spec_less(zero) || b.width.spec_less(zero) || b.height.spec_less(zero)
        || one.spec_less(b.x.spec_plus(b.width)) || one.spec_less(b.y.spec_plus(b.height)) {
        Some(TokenFault::OutOfBounds)
    } else if !(zero.spec_at_most(token.confidence) && token.confidence.spec_at_most(one)) {
        Some(TokenFault::BadConfidence)
    } else {
        None
    }
}

pub fn validate_ocr_token(token: &OcrToken) -> (r: Result<(), TokenFault>)
    ensures
        match r {
            Ok(_) => token_fault(token@) is None,
            Err(fault) => token_fault(token@) == Some(fault),
        },
{
    let zero = Single::zero();
    let one = Single::one();
    let b = token.bounds;
    if !(b.x.is_finite() && b.y.is_finite() && b.width.is_finite() && b.height.is_finite()
        && token.confidence.is_finite()) {
        return Err(TokenFault::NotFinite);
    }
    if b.x.less(zero) || b.y.less(zero) || b.width.less(zero) || b.height.less(zero) || one.less(b.x.plus(b.width))
        || one.less(b.y.plus(b.height)) {
        return Err(TokenFault::OutOfBounds);
    }
    if !(zero.at_most(token.confidence) && token.confidence.at_most(one)) {
        return Err(TokenFault::BadConfidence);
    }
    Ok(())
}

/// The error for a token with the fault.
pub open spec fn refuses(error: HybridMarkdownError, page: u32, fault: TokenFault) -> bool {
    error matches HybridMarkdownError::InvalidToken { page: p, reason } && p == page && reason@ == fault.spec_reason()
}

/// The token holds nothing but white space.
pub open spec fn blank(token: TokenView) -> bool {
    trimmed(token.text).len() == 0
}

/// The first fault of the first `n` tokens.
pub open spec fn first_fault(tokens: Seq<TokenView>, n: nat) -> Option<TokenFault>
    decreases n,
{
    if n == 0 {
        None
    } else {
        match first_fault(tokens, (n - 1) as nat) {
            Some(fault) => Some(fault),
            None => token_fault(tokens[n - 1]),
        }
    }
}

/// The edges of a line of tokens.
#[derive(Clone, Copy, Debug, PartialEq, Eq, Structural)]
pub struct LineBox {
    pub left: Single,
    pub top: Single,
    pub right: Single,
    pub bottom: Single,
}

/// The edges of one token.
pub open spec fn token_box(token: TokenView) -> LineBox {
    let b = token.bounds;
    LineBox { left: b.x, top: b.y, right: b.x.spec_plus(b.width), bottom: b.y.spec_plus(b.height) }
}

/// Edges widened by others.
pub open spec fn widened(a: LineBox, b: LineBox) -> LineBox {
    LineBox {
        left: a.left.spec_min(b.left),
        top: a.top.spec_min(b.top),
        right: a.right.spec_max(b.right),
        bottom: a.bottom.spec_max(b.bottom),
    }
}

/// The edges of the tokens of a line that are not blank, among the first `n`.
pub open spec fn line_box(tokens: Seq<TokenView>, line: u32, n: nat) -> Option<LineBox>
    decreases n,
{
    if n == 0 {
        None
    } else {
        let before = line_box(tokens, line, (n - 1) as nat);
        let token = tokens[n - 1];
        if blank(token) || token.line_index != line {
            before
        } else {
            match before {
                Some(edges) => Some(widened(edges, token_box(token))),
                None => Some(widened(token_box(token), token_box(token))),
            }
        }
    }
}

/// The item of a token on a line with the given edges.
pub open spec fn token_item(request: OcrPageRequest, token: TokenView, line: LineBox) -> ItemView {
    let line_height = line.bottom.spec_minus(line.top).spec_max(Single { bits: LEAST_LINE_HEIGHT_BITS });
    let font_size = line_height.spec_times(request.height).spec_max(Single { bits: ONE_BITS });
    let baseline = request.y.spec_plus(
        (Single { bits: ONE_BITS }).spec_minus(line.top).spec_minus(line_height).spec_times(request.height),
    ).spec_plus(font_size.spec_times(Single { bits: BASELINE_SHARE_BITS }));
    ItemView {
        text: token.text,
        x: request.x.spec_plus(token.bounds.x.spec_times(request.width)),
        y: baseline,
        width: token.bounds.width.spec_times(request.width).spec_max(Single { bits: LEAST_WIDTH_BITS }),
        height: font_size,
        rotation: Single { bits: 0 },
        advance_known: false,
        font: "__pdf_inspector_ocr"@,
        font_tag: Seq::empty(),
        legacy_symbol_rewrite: false,
        font_size,
        page: request.page,
        is_bold: false,
        is_italic: false,
        is_underline: false,
        is_strikeout: false,
        item_type: ItemKind::Text,
        mcid: None,
        baseline_shift: Single { bits: 0 },
    }
}

/// The items of the first `n` tokens: one for each that is not blank.
pub open spec fn token_items(request: OcrPageRequest, tokens: Seq<TokenView>, n: nat) -> Seq<ItemView>
    decreases n,
{
    if n == 0 {
        Seq::empty()
    } else {
        let before = token_items(request, tokens, (n - 1) as nat);
        let token = tokens[n - 1];
        if blank(token) {
            before
        } else {
            before.push(token_item(request, token, line_box(tokens, token.line_index, tokens.len())->0))
        }
    }
}

fn is_blank(token: &OcrToken) -> (r: bool)
    ensures
        r == blank(token@),
{
    is_blank_text(token.text.as_str())
}

/// The edges of the lines met so far.
struct LineBoxes {
    lines: Vec<(u32, LineBox)>,
}

spec fn found(lines: Seq<(u32, LineBox)>, line: u32) -> Option<LineBox>
    decreases lines.len(),
{
    if lines.len() == 0 {
        None
    } else if lines.last().0 == line {
        Some(lines.last().1)
    } else {
        found(lines.drop_last(), line)
    }
}

proof fn lemma_found(lines: Seq<(u32, LineBox)>, line: u32, k: int)
    requires
        0 <= k < lines.len(),
        lines[k].0 == line,
        forall|i: int| k < i < lines.len() ==> (#[trigger] lines[i]).0 != line,
    ensures
        found(lines, line) == Some(lines[k].1),
    decreases lines.len(),
{
    if lines.last().0 != line {
        assert(lines.drop_last()[k] == lines[k]);
        assert forall|i: int| k < i < lines.drop_last().len() implies (#[trigger] lines.drop_last()[i]).0 != line by {
            assert(lines[i].0 != line);
        }
        lemma_found(lines.drop_last(), line, k);
    }
}

proof fn lemma_not_found(lines: Seq<(u32, LineBox)>, line: u32)
    requires
        forall|i: int| 0 <= i < lines.len() ==> (#[trigger] lines[i]).0 != line,
    ensures
        found(lines, line) is None,
    decreases lines.len(),
{
    if lines.len() > 0 {
        assert(lines[lines.len() - 1].0 != line);
        assert forall|i: int| 0 <= i < lines.drop_last().len() implies (#[trigger] lines.drop_last()[i]).0 != line by {
            assert(lines[i].0 != line);
        }
        lemma_not_found(lines.drop_last(), line);
    }
}

proof fn lemma_found_after_update(lines: Seq<(u32, LineBox)>, k: int, edges: LineBox, line: u32)
    requires
        0 <= k < lines.len(),
        forall|i: int| k < i < lines.len() ==> (#[trigger] lines[i]).0 != lines[k].0,
    ensures
        found(lines.update(k, (lines[k].0, edges)), line) == if line == lines[k].0 {
            Some(edges)
        } else {
            found(lines, line)
        },
    decreases lines.len(),
{
    let after = lines.update(k, (lines[k].0, edges));
    if k == lines.len() - 1 {
        assert(after.drop_last() =~= lines.drop_last());
    } else {
        assert(lines[lines.len() - 1].0 != lines[k].0);
        assert(after.drop_last() =~= lines.drop_last().update(k, (lines[k].0, edges)));
        assert forall|i: int| k < i < lines.drop_last().len() implies (#[trigger] lines.drop_last()[i]).0
            != lines.drop_last()[k].0 by {
            assert(lines[i].0 != lines[k].0);
        }
        lemma_found_after_update(lines.drop_last(), k, edges, line);
    }
}

impl LineBoxes {
    /// The place of a line in the list, counted from the end.
    fn position(&self, line: u32) -> (r: Option<usize>)
        ensures
            match r {
                Some(k) => k < self.lines@.len() && self.lines@[k as int].0 == line && found(self.lines@, line)
                    == Some(self.lines@[k as int].1) && forall|i: int|
                    k < i < self.lines@.len() ==> (#[trigger] self.lines@[i]).0 != line,
                None => found(self.lines@, line) is None,
            },
    {
        let mut i: usize = self.lines.len();
        while i > 0
            invariant
                i <= self.lines@.len(),
                forall|k: int| i <= k < self.lines@.len() ==> (#[trigger] self.lines@[k]).0 != line,
            decreases i,
        {
            i -= 1;
            if self.lines[i].0 == line {
                proof {
                    lemma_found(self.lines@, line, i as int);
                }
                return Some(i);
            }
        }
        proof {
            lemma_not_found(self.lines@, line);
        }
        None
    }

    fn add_token(&mut self, line: u32, edges: LineBox)
        ensures
            forall|l: u32| #[trigger]
                found(final(self).lines@, l) == if l == line {
                    match found(old(self).lines@, line) {
                        Some(known) => Some(widened(known, edges)),
                        None => Some(widened(edges, edges)),
                    }
                } else {
                    found(old(self).lines@, l)
                },
    {
        let ghost before = self.lines@;
        match self.position(line) {
            Some(k) => {
                let known = self.lines[k].1;
                let wide = LineBox {
                    left: known.left.min(edges.left),
                    top: known.top.min(edges.top),
                    right: known.right.max(edges.right),
                    bottom: known.bottom.max(edges.bottom),
                };
                self.lines[k] = (line, wide);
                proof {
                    assert(self.lines@ =~= before.update(k as int, (before[k as int].0, wide)));
                    assert forall|l: u32| #[trigger]
                        found(self.lines@, l) == if l == line {
                            Some(wide)
                        } else {
                            found(before, l)
                        } by {
                        lemma_found_after_update(before, k as int, wide, l);
                    }
                }
            },
            None => {
                let own = LineBox {
                    left: edges.left.min(edges.left),
                    top: edges.top.min(edges.top),
                    right: edges.right.max(edges.right),
                    bottom: edges.bottom.max(edges.bottom),
                };
                self.lines.push((line, own));
                assert(self.lines@.drop_last() =~= before);
            },
        }
    }
}

fn box_of(token: &OcrToken) -> (r: LineBox)
    ensures
        r == token_box(token@),
{
    let b = token.bounds;
    LineBox { left: b.x, top: b.y, right: b.x.plus(b.width), bottom: b.y.plus(b.height) }
}

fn item_of(request: &OcrPageRequest, token: OcrToken, line: LineBox) -> (r: TextItem)
    ensures
        r@ == token_item(*request, token@, line),
{
    let line_height = line.bottom.minus(line.top).max(Single { bits: LEAST_LINE_HEIGHT_BITS });
    let font_size = line_height.times(request.height).max(Single::one());
    let baseline = request.y.plus(Single::one().minus(line.top).minus(line_height).times(request.height)).plus(
        font_size.times(Single { bits: BASELINE_SHARE_BITS }),
    );
    let r = TextItem {
        text: token.text,
        x: request.x.plus(token.bounds.x.times(request.width)),
        y: baseline,
        width: token.bounds.width.times(request.width).max(Single { bits: LEAST_WIDTH_BITS }),
        height: font_size,
        rotation: Single::zero(),
        advance_known: false,
        font: "__pdf_inspector_ocr".to_string(),
        font_tag: String::new(),
        legacy_symbol_rewrite: false,
        font_size,
        page: request.page,
        is_bold: false,
        is_italic: false,
        is_underline: false,
        is_strikeout: false,
        item_type: ItemType::Text,
        mcid: None,
        baseline_shift: Single::zero(),
    };
    assert(r@.font_tag =~= Seq::empty());
    r
}

proof fn lemma_fault_stays(tokens: Seq<TokenView>, n: nat, m: nat)
    requires
        n <= m,
        first_fault(tokens, n) is Some,
    ensures
        first_fault(tokens, m) == first_fault(tokens, n),
    decreases m,
{
    if n < m {
        lemma_fault_stays(tokens, n, (m - 1) as nat);
    }
}

pub proof fn lemma_line_of_token(tokens: Seq<TokenView>, i: int, n: nat)
    requires
        0 <= i < n <= tokens.len(),
        !blank(tokens[i]),
    ensures
        line_box(tokens, tokens[i].line_index, n) is Some,
    decreases n,
{
    if i < n - 1 {
        lemma_line_of_token(tokens, i, (n - 1) as nat);
    }
}

/// The text items of the tokens of a page. Tokens of one line share a
/// baseline and a size; blank ones are left out.
pub fn ocr_tokens_to_items(request: &OcrPageRequest, tokens: Vec<OcrToken>) -> (r: Result<
    Vec<TextItem>,
    HybridMarkdownError,
>)
    ensures
        match r {
            Ok(items) => {
                &&& first_fault(token_views(tokens@), tokens@.len()) is None
                &&& views(items@) == token_items(*request, token_views(tokens@), tokens@.len())
            },
            Err(error) => first_fault(token_views(tokens@), tokens@.len()) matches Some(fault) && refuses(
                error,
                request.page,
                fault,
            ),
        },
{
    let ghost model = token_views(tokens@);
    let count: usize = tokens.len();
    let mut boxes = LineBoxes { lines: Vec::new() };
    let mut i: usize = 0;
    while i < count
        invariant
            i <= count,
            count == tokens@.len(),
            model == token_views(tokens@),
            first_fault(model, i as nat) is None,
            forall|line: u32| #[trigger] found(boxes.lines@, line) == line_box(model, line, i as nat),
        decreases count - i,
    {
        assert(model[i as int] == tokens@[i as int]@);
        if let Err(fault) = validate_ocr_token(&tokens[i]) {
            proof {
                lemma_fault_stays(model, (i + 1) as nat, count as nat);
            }
            return Err(HybridMarkdownError::InvalidToken { page: request.page, reason: fault.reason().to_string() });
        }
        let ghost before = boxes.lines@;
        let empty = is_blank(&tokens[i]);
        if !empty {
            boxes.add_token(tokens[i].line_index, box_of(&tokens[i]));
        }
        proof {
            assert forall|line: u32| #[trigger] found(boxes.lines@, line) == line_box(model, line, (i + 1) as nat) by {
                assert(found(before, line) == line_box(model, line, i as nat));
            }
        }
        i += 1;
    }
    let mut items: Vec<TextItem> = Vec::new();
    let mut backwards: Vec<OcrToken> = Vec::new();
    let mut rest = tokens;
    let ghost all = rest@;
    while rest.len() > 0
        invariant
            rest@.len() + backwards@.len() == all.len(),
            rest@ == all.take(rest@.len() as int),
            forall|k: int| 0 <= k < backwards@.len() ==> #[trigger] backwards@[k] == all[all.len() - 1 - k],
        decreases rest@.len(),
    {
        if let Some(token) = rest.pop() {
            backwards.push(token);
        }
        assert(rest@ =~= all.take(rest@.len() as int));
    }
    let ghost mut done: nat = 0;
    assert(views(items@) =~= Seq::empty());
    while backwards.len() > 0
        invariant
            all == tokens@,
            count == all.len(),
            model == token_views(all),
            done + backwards@.len() == all.len(),
            forall|k: int| 0 <= k < backwards@.len() ==> #[trigger] backwards@[k] == all[all.len() - 1 - k],
            forall|line: u32| #[trigger] found(boxes.lines@, line) == line_box(model, line, count as nat),
            views(items@) == token_items(*request, model, done),
        decreases backwards@.len(),
    {
        if let Some(token) = backwards.pop() {
            assert(token == all[done as int]);
            assert(model[done as int] == token@);
            let ghost before = items@;
            if !is_blank(&token) {
                let line = token.line_index;
                proof {
                    lemma_line_of_token(model, done as int, count as nat);
                    assert(found(boxes.lines@, line) == line_box(model, line, count as nat));
                }
                if let Some(k) = boxes.position(line) {
                    let edges = boxes.lines[k].1;
                    items.push(item_of(request, token, edges));
                    assert(views(items@) =~= views(before).push(items@.last()@));
                }
            }
            proof {
                done = done + 1;
            }
        }
    }
    Ok(items)
}

/// Every item of an OCR page is on that page, in the OCR font, and not blank.
pub proof fn law_items_belong_to_their_page(request: OcrPageRequest, tokens: Seq<TokenView>, n: nat, i: int)
    requires
        n <= tokens.len(),
        0 <= i < token_items(request, tokens, n).len(),
    ensures
        token_items(request, tokens, n)[i].page == request.page,
        token_items(request, tokens, n)[i].font == "__pdf_inspector_ocr"@,
        trimmed(token_items(request, tokens, n)[i].text).len() > 0,
    decreases n,
{
    let before = token_items(request, tokens, (n - 1) as nat);
    if i < before.len() {
        law_items_belong_to_their_page(request, tokens, (n - 1) as nat, i);
    }
}

/// Where the item of a token stands among the items: after those of the
/// tokens before it.
pub proof fn lemma_item_of_token(request: OcrPageRequest, tokens: Seq<TokenView>, i: int, n: nat)
    requires
        0 <= i < n <= tokens.len(),
        !blank(tokens[i]),
    ensures
        ({
            let rank = token_items(request, tokens, i as nat).len() as int;
            let items = token_items(request, tokens, n);
            &&& rank < items.len()
            &&& items[rank] == token_item(
                request,
                tokens[i],
                line_box(tokens, tokens[i].line_index, tokens.len())->0,
            )
        }),
    decreases n,
{
    if i < n - 1 {
        lemma_item_of_token(request, tokens, i, (n - 1) as nat);
    }
}

/// Tokens of one line become items with one baseline and one size.
pub proof fn law_a_line_shares_its_baseline(request: OcrPageRequest, tokens: Seq<TokenView>, i: int, j: int)
    requires
        0 <= i < tokens.len(),
        0 <= j < tokens.len(),
        !blank(tokens[i]),
        !blank(tokens[j]),
        tokens[i].line_index == tokens[j].line_index,
    ensures
        ({
            let items = token_items(request, tokens, tokens.len());
            let a = items[token_items(request, tokens, i as nat).len() as int];
            let b = items[token_items(request, tokens, j as nat).len() as int];
            &&& a.text == tokens[i].text
            &&& b.text == tokens[j].text
            &&& a.y == b.y
            &&& a.height == b.height
            &&& a.font_size == b.font_size
        }),
{
    lemma_item_of_token(request, tokens, i, tokens.len());
    lemma_item_of_token(request, tokens, j, tokens.len());
}

} // verus!
