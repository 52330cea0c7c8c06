//! What a shown run owes to the text state.

use crate::extractor::form_text::{advance_scale, run_item, FontFace, PlacedRun, ShowSetting};
use crate::extractor::form_walk::WalkView;
use crate::types::ItemKind;
use vstd::prelude::*;

verus! {

/// An item stands where its run does, is as large as it, says what it says and
/// is on its page; it bears no mark that only a later pass can set.
pub proof fn law_items_stand_where_their_run_does(run: PlacedRun, face: FontFace, walk: WalkView, setting: ShowSetting)
    ensures
        ({
            let item = run_item(run, face, walk, setting);
            &&& item.text == run.expanded@
            &&& item.x == run.x && item.y == run.y
            &&& item.width == run.width && item.height == run.height
            &&& item.rotation == run.rotation && item.advance_known == run.advance_known
            &&& item.page == setting.page && item.font_size == setting.rendered_size
            &&& item.font == face.item_font@ && item.font_tag == walk.graphics.font
            &&& item.item_type == ItemKind::Text && item.mcid is None
            &&& !item.is_underline && !item.is_strikeout && !item.is_script()
            &&& face.bold ==> item.is_bold
            &&& !face.bold && !face.paintable ==> !item.is_bold
            &&& item.is_italic == face.italic
        }),
{
}

/// Text advances along the first row of the text matrix behind the current
/// one, stretched by the horizontal scale.
pub proof fn law_text_advances_in_the_space_of_the_page(walk: WalkView)
    ensures
        ({
            let both = walk.text_matrix.spec_times(walk.graphics.ctm);
            let h = walk.graphics.horizontal_scale;
            advance_scale(walk) == (both.a.spec_times(h), both.b.spec_times(h))
        }),
{
}

} // verus!
