//! JSON text.

use crate::hybrid_markdown::reasons::{entry_views, PageOcrReasons, ReasonsView};
use crate::numbers::{decimal, fixed, push_decimal, push_fixed};
use crate::single::Single;
use crate::text::{characters, push_chars, push_text, strings, text_of};
use crate::types::{views, ItemKind, ItemType, ItemView, TextItem};
use crate::unicode::code_point;
use vstd::prelude::*;

verus! {

/// A hexadecimal digit in lower case.
pub open spec fn hex_digit(d: nat) -> char {
    if d < 10 {
        ((48 + d) as u8) as char
    } else {
        ((87 + d) as u8) as char
    }
}

/// A character inside a JSON string.
pub open spec fn escape(c: char) -> Seq<char> {
    if c == '\\' {
        seq!['\\', '\\']
    } else if c == '"' {
        seq!['\\', '"']
    } else if c == '\n' {
        seq!['\\', 'n']
    } else if c == '\r' {
        seq!['\\', 'r']
    } else if c == '\t' {
        seq!['\\', 't']
    } else if c as u32 == 8 {
        seq!['\\', 'b']
    } else if c as u32 == 12 {
        seq!['\\', 'f']
    } else if (c as u32) < 32 {
        seq!['\\', 'u', '0', '0', hex_digit(c as nat / 16), hex_digit(c as nat % 16)]
    } else {
        seq![c]
    }
}

/// A text inside a JSON string.
pub open spec fn escaped(s: Seq<char>) -> Seq<char>
    decreases s.len(),
{
    if s.len() == 0 {
        Seq::empty()
    } else {
        escaped(s.drop_last()) + escape(s.last())
    }
}

fn push_escape(out: &mut Vec<char>, c: char)
    ensures
        final(out)@ == old(out)@ + escape(c),
{
    let code = code_point(c);
    if c == '\\' {
        out.push('\\');
        out.push('\\');
    } else if c == '"' {
        out.push('\\');
        out.push('"');
    } else if c == '\n' {
        out.push('\\');
        out.push('n');
    } else if c == '\r' {
        out.push('\\');
        out.push('r');
    } else if c == '\t' {
        out.push('\\');
        out.push('t');
    } else if code == 8 {
        out.push('\\');
        out.push('b');
    } else if code == 12 {
        out.push('\\');
        out.push('f');
    } else if code < 32 {
        let high: u8 = (code / 16) as u8;
        let low: u8 = (code % 16) as u8;
        out.push('\\');
        out.push('u');
        out.push('0');
        out.push('0');
        out.push((48 + high) as char);
        out.push(
            if low < 10 {
                (48 + low) as char
            } else {
                (87 + low) as char
            },
        );
    } else {
        out.push(c);
    }
    assert(out@ =~= old(out)@ + escape(c));
}

/// Appends a text as the inside of a JSON string.
pub fn push_escaped(out: &mut Vec<char>, s: &str)
    ensures
        final(out)@ == old(out)@ + escaped(s@),
{
    let chars = characters(s);
    let ghost start = out@;
    let mut i: usize = 0;
    assert(start + escaped(s@.take(0)) =~= start);
    while i < chars.len()
        invariant
            i <= chars@.len(),
            chars@ == s@,
            out@ == start + escaped(s@.take(i as int)),
        decreases chars@.len() - i,
    {
        let c: char = chars[i];
        push_escape(out, c);
        assert(s@.take(i + 1).drop_last() =~= s@.take(i as int));
        i += 1;
        assert(out@ =~= start + escaped(s@.take(i as int)));
    }
    assert(s@.take(s@.len() as int) =~= s@);
}

/// Escapes a string for embedding in a JSON string value: backslash,
/// double-quote, and the control characters.
pub fn json_escape(s: &str) -> (r: String)
    ensures
        r@ == escaped(s@),
{
    let mut out: Vec<char> = Vec::new();
    push_escaped(&mut out, s);
    assert(out@ =~= escaped(s@));
    text_of(&out)
}

/// The value of a hexadecimal digit in lower case.
pub open spec fn hex_value(c: char) -> nat {
    if c <= '9' {
        (c as nat - 48) as nat
    } else {
        (c as nat - 87) as nat
    }
}

/// The character that an escape stands for: the inverse of [`escape`].
pub open spec fn unescape(e: Seq<char>) -> char {
    if e.len() == 1 {
        e[0]
    } else if e.len() == 2 {
        if e[1] == 'n' {
            '\n'
        } else if e[1] == 'r' {
            '\r'
        } else if e[1] == 't' {
            '\t'
        } else if e[1] == 'b' {
            8u8 as char
        } else if e[1] == 'f' {
            12u8 as char
        } else {
            e[1]
        }
    } else {
        ((hex_value(e[4]) * 16 + hex_value(e[5])) as u8) as char
    }
}

/// The length of the escape at the start of a text.
pub open spec fn escape_length(t: Seq<char>) -> nat {
    if t.len() >= 2 && t[0] == '\\' {
        if t[1] == 'u' && t.len() >= 6 {
            6
        } else {
            2
        }
    } else {
        1
    }
}

/// The text that the inside of a JSON string stands for.
pub open spec fn unescaped(t: Seq<char>) -> Seq<char>
    decreases t.len(),
{
    if t.len() == 0 {
        Seq::empty()
    } else {
        let n = escape_length(t) as int;
        seq![unescape(t.take(n))] + unescaped(t.skip(n))
    }
}

proof fn lemma_escape(c: char, rest: Seq<char>)
    ensures
        1 <= escape(c).len() <= 6,
        escape_length(escape(c) + rest) == escape(c).len(),
        unescape(escape(c)) == c,
        (escape(c) + rest).take(escape(c).len() as int) == escape(c),
        (escape(c) + rest).skip(escape(c).len() as int) == rest,
{
    let e = escape(c);
    assert((e + rest).take(e.len() as int) =~= e);
    assert((e + rest).skip(e.len() as int) =~= rest);
    assert((e + rest)[0] == e[0]);
    if e.len() >= 2 {
        assert((e + rest)[1] == e[1]);
    }
    let code = c as u32;
    if code < 32 && e.len() == 6 {
        let high = code as nat / 16;
        let low = code as nat % 16;
        assert(hex_value(hex_digit(high)) == high);
        assert(hex_value(hex_digit(low)) == low);
        assert(hex_value(e[4]) * 16 + hex_value(e[5]) == code);
        assert((code as u8) as char == c);
    }
}

proof fn lemma_unescaped_front(s: Seq<char>, c: char, rest: Seq<char>)
    ensures
        unescaped(escape(c) + rest) == seq![c] + unescaped(rest),
{
    lemma_escape(c, rest);
}

/// What is escaped reads back as it was.
pub proof fn law_escaping_can_be_undone(s: Seq<char>)
    ensures
        unescaped(escaped(s)) == s,
{
    lemma_unescaped_with(s, Seq::empty());
    assert(escaped(s) + Seq::<char>::empty() =~= escaped(s));
    assert(s + unescaped(Seq::empty()) =~= s);
}

proof fn lemma_unescaped_with(s: Seq<char>, rest: Seq<char>)
    ensures
        unescaped(escaped(s) + rest) == s + unescaped(rest),
    decreases s.len(),
{
    if s.len() == 0 {
        assert(escaped(s) + rest =~= rest);
        assert(s + unescaped(rest) =~= unescaped(rest));
    } else {
        let front = s.drop_last();
        lemma_unescaped_with(front, escape(s.last()) + rest);
        lemma_unescaped_front(s, s.last(), rest);
        assert(escaped(s) + rest =~= escaped(front) + (escape(s.last()) + rest));
        assert(front + (seq![s.last()] + unescaped(rest)) =~= s + unescaped(rest));
    }
}

proof fn lemma_escape_is_plain(c: char, k: int)
    requires
        0 <= k < escape(c).len(),
    ensures
        escape(c)[k] as u32 >= 32,
        escape(c)[k] == '"' ==> k > 0 && escape(c)[k - 1] == '\\',
{
    let e = escape(c);
    if e.len() == 6 {
        let high = c as nat / 16;
        let low = c as nat % 16;
        assert(high < 2);
        assert(hex_digit(high) as u32 >= 48 && hex_digit(low) as u32 >= 48);
        assert(e[0] == '\\' && e[1] == 'u' && e[2] == '0' && e[3] == '0' && e[4] == hex_digit(high) && e[5]
            == hex_digit(low));
    } else if e.len() == 2 {
        assert(e[0] == '\\');
    } else {
        assert(e.len() == 1 && e[0] == c);
    }
}

/// Escaped text holds no control character, and no quotation mark that would
/// end the string: each comes right after a backslash.
pub proof fn law_escaped_text_stays_in_its_string(s: Seq<char>, i: int)
    requires
        0 <= i < escaped(s).len(),
    ensures
        escaped(s)[i] as u32 >= 32,
        escaped(s)[i] == '"' ==> i > 0 && escaped(s)[i - 1] == '\\',
    decreases s.len(),
{
    let front = s.drop_last();
    let e = escape(s.last());
    if i < escaped(front).len() {
        law_escaped_text_stays_in_its_string(front, i);
        assert(escaped(s)[i] == escaped(front)[i]);
        if i > 0 {
            assert(escaped(s)[i - 1] == escaped(front)[i - 1]);
        }
    } else {
        let k = i - escaped(front).len();
        assert(escaped(s)[i] == e[k]);
        lemma_escape_is_plain(s.last(), k);
        if k > 0 {
            assert(escaped(s)[i - 1] == e[k - 1]);
        }
    }
}

/// Quoted JSON strings with commas between them, the first `n` of them.
pub open spec fn quoted_list(list: Seq<Seq<char>>, n: nat) -> Seq<char>
    decreases n,
{
    if n == 0 {
        Seq::empty()
    } else {
        let comma = if n == 1 {
            Seq::empty()
        } else {
            ","@
        };
        quoted_list(list, (n - 1) as nat) + comma + "\""@ + escaped(list[n - 1]) + "\""@
    }
}

/// Appends quoted JSON strings with commas between them.
pub fn push_quoted_list(out: &mut Vec<char>, list: &Vec<String>)
    ensures
        final(out)@ == old(out)@ + quoted_list(strings(list@), list@.len()),
{
    let ghost start = out@;
    let ghost model = strings(list@);
    let mut i: usize = 0;
    assert(start + quoted_list(model, 0) =~= start);
    while i < list.len()
        invariant
            i <= list@.len(),
            model == strings(list@),
            out@ == start + quoted_list(model, i as nat),
        decreases list@.len() - i,
    {
        assert(model[i as int] == list@[i as int]@);
        if i > 0 {
            push_text(out, ",");
        }
        push_text(out, "\"");
        push_escaped(out, list[i].as_str());
        push_text(out, "\"");
        i += 1;
        assert(out@ =~= start + quoted_list(model, i as nat));
    }
}

/// The reasons of pages as JSON objects with commas between them.
pub open spec fn reasons_json(entries: Seq<ReasonsView>, n: nat) -> Seq<char>
    decreases n,
{
    if n == 0 {
        Seq::empty()
    } else {
        let comma = if n == 1 {
            Seq::empty()
        } else {
            ","@
        };
        let entry = entries[n - 1];
        reasons_json(entries, (n - 1) as nat) + comma + "{\"page\":"@ + decimal(entry.page as nat) + ",\"reasons\":["@
            + quoted_list(entry.reasons, entry.reasons.len()) + "]}"@
    }
}

/// Appends the reasons of pages as JSON objects with commas between them.
pub fn push_reasons(out: &mut Vec<char>, reasons: &Vec<PageOcrReasons>)
    ensures
        final(out)@ == old(out)@ + reasons_json(entry_views(reasons@), reasons@.len()),
{
    let ghost start = out@;
    let ghost model = entry_views(reasons@);
    let mut i: usize = 0;
    assert(start + reasons_json(model, 0) =~= start);
    while i < reasons.len()
        invariant
            i <= reasons@.len(),
            model == entry_views(reasons@),
            out@ == start + reasons_json(model, i as nat),
        decreases reasons@.len() - i,
    {
        assert(model[i as int] == reasons@[i as int]@);
        if i > 0 {
            push_text(out, ",");
        }
        push_text(out, "{\"page\":");
        push_decimal(out, reasons[i].page as u128);
        push_text(out, ",\"reasons\":[");
        push_quoted_list(out, &reasons[i].reasons);
        push_text(out, "]}");
        i += 1;
        assert(out@ =~= start + reasons_json(model, i as nat));
    }
}

/// The reasons of pages as the inside of a JSON array.
pub fn format_ocr_reasons_by_page(reasons: &Vec<PageOcrReasons>) -> (r: String)
    ensures
        r@ == reasons_json(entry_views(reasons@), reasons@.len()),
{
    let mut out: Vec<char> = Vec::new();
    push_reasons(&mut out, reasons);
    assert(out@ =~= reasons_json(entry_views(reasons@), reasons@.len()));
    text_of(&out)
}

/// `true` or `false`.
pub open spec fn bool_text(value: bool) -> Seq<char> {
    if value {
        "true"@
    } else {
        "false"@
    }
}

/// Appends `true` or `false`.
pub fn push_bool(out: &mut Vec<char>, value: bool)
    ensures
        final(out)@ == old(out)@ + bool_text(value),
{
    if value {
        push_text(out, "true");
    } else {
        push_text(out, "false");
    }
}

/// What kind of item it is, in words.
pub open spec fn type_label(kind: ItemKind) -> Seq<char> {
    match kind {
        ItemKind::Text => "text"@,
        ItemKind::Image => "image"@,
        ItemKind::Link(_) => "link"@,
        ItemKind::FormField => "form_field"@,
    }
}

pub fn item_type_label(item_type: &ItemType) -> (r: &'static str)
    ensures
        r@ == type_label(item_type@),
{
    match item_type {
        ItemType::Text => "text",
        ItemType::Image => "image",
        ItemType::Link(_) => "link",
        ItemType::FormField => "form_field",
    }
}

/// A signed integer in decimal.
pub open spec fn signed_decimal(n: int) -> Seq<char> {
    if n < 0 {
        "-"@ + decimal((-n) as nat)
    } else {
        decimal(n as nat)
    }
}

fn push_signed(out: &mut Vec<char>, n: i64)
    ensures
        final(out)@ == old(out)@ + signed_decimal(n as int),
{
    if n < 0 {
        push_text(out, "-");
        let size: i128 = -(n as i128);
        push_decimal(out, size as u128);
        assert(out@ =~= old(out)@ + signed_decimal(n as int));
    } else {
        push_decimal(out, n as u128);
    }
}

/// The start of the JSON object of an item: text, place and extent.
pub open spec fn item_place_json(item: ItemView) -> Seq<char> {
    "{\"text\":\""@ + escaped(item.text) + "\",\"page\":"@ + decimal(item.page as nat) + ",\"x\":"@ + fixed(item.x, 2)
        + ",\"y\":"@ + fixed(item.y, 2) + ",\"width\":"@ + fixed(item.width, 2) + ",\"height\":"@ + fixed(
        item.height,
        2,
    ) + ",\"rotation\":"@ + fixed(item.rotation, 2) + ",\"advance_known\":"@ + bool_text(item.advance_known)
}

/// The middle of the JSON object of an item: font and style.
pub open spec fn item_style_json(item: ItemView) -> Seq<char> {
    ",\"font\":\""@ + escaped(item.font) + "\",\"font_tag\":\""@ + escaped(item.font_tag) + "\",\"font_size\":"@
        + fixed(item.font_size, 2) + ",\"is_bold\":"@ + bool_text(item.is_bold) + ",\"is_italic\":"@ + bool_text(
        item.is_italic,
    ) + ",\"is_underline\":"@ + bool_text(item.is_underline) + ",\"is_strikeout\":"@ + bool_text(item.is_strikeout)
        + ",\"baseline_shift\":"@ + fixed(item.baseline_shift, 2)
}

/// The end of the JSON object of an item: its kind and what it refers to.
pub open spec fn item_kind_json(item: ItemView) -> Seq<char> {
    let mcid = match item.mcid {
        Some(id) => signed_decimal(id as int),
        None => "null"@,
    };
    let url = match item.item_type {
        ItemKind::Link(url) => ",\"url\":\""@ + escaped(url) + "\""@,
        _ => Seq::empty(),
    };
    ",\"item_type\":\""@ + type_label(item.item_type) + "\",\"mcid\":"@ + mcid + url + "}"@
}

/// The JSON object of an item.
pub open spec fn item_json(item: ItemView) -> Seq<char> {
    item_place_json(item) + item_style_json(item) + item_kind_json(item)
}

fn write_item_place(item: &TextItem) -> (r: Vec<char>)
    ensures
        r@ == item_place_json(item@),
{
    let mut out = characters("{\"text\":\"");
    push_escaped(&mut out, item.text.as_str());
    push_text(&mut out, "\",\"page\":");
    push_decimal(&mut out, item.page as u128);
    push_text(&mut out, ",\"x\":");
    push_fixed(&mut out, item.x, 2);
    push_text(&mut out, ",\"y\":");
    push_fixed(&mut out, item.y, 2);
    push_text(&mut out, ",\"width\":");
    push_fixed(&mut out, item.width, 2);
    push_text(&mut out, ",\"height\":");
    push_fixed(&mut out, item.height, 2);
    push_text(&mut out, ",\"rotation\":");
    push_fixed(&mut out, item.rotation, 2);
    push_text(&mut out, ",\"advance_known\":");
    push_bool(&mut out, item.advance_known);
    out
}

fn write_item_style(item: &TextItem) -> (r: Vec<char>)
    ensures
        r@ == item_style_json(item@),
{
    let mut out = characters(",\"font\":\"");
    push_escaped(&mut out, item.font.as_str());
    push_text(&mut out, "\",\"font_tag\":\"");
    push_escaped(&mut out, item.font_tag.as_str());
    push_text(&mut out, "\",\"font_size\":");
    push_fixed(&mut out, item.font_size, 2);
    push_text(&mut out, ",\"is_bold\":");
    push_bool(&mut out, item.is_bold);
    push_text(&mut out, ",\"is_italic\":");
    push_bool(&mut out, item.is_italic);
    push_text(&mut out, ",\"is_underline\":");
    push_bool(&mut out, item.is_underline);
    push_text(&mut out, ",\"is_strikeout\":");
    push_bool(&mut out, item.is_strikeout);
    push_text(&mut out, ",\"baseline_shift\":");
    push_fixed(&mut out, item.baseline_shift, 2);
    out
}

fn write_item_kind(item: &TextItem) -> (r: Vec<char>)
    ensures
        r@ == item_kind_json(item@),
{
    let mut out = characters(",\"item_type\":\"");
    push_text(&mut out, item_type_label(&item.item_type));
    push_text(&mut out, "\",\"mcid\":");
    match item.mcid {
        Some(id) => {
            push_signed(&mut out, id);
        },
        None => {
            push_text(&mut out, "null");
        },
    }
    match &item.item_type {
        ItemType::Link(url) => {
            push_text(&mut out, ",\"url\":\"");
            push_escaped(&mut out, url.as_str());
            push_text(&mut out, "\"");
        },
        _ => {},
    }
    push_text(&mut out, "}");
    out
}

fn write_item(item: &TextItem) -> (r: Vec<char>)
    ensures
        r@ == item_json(item@),
{
    let mut out = write_item_place(item);
    let style = write_item_style(item);
    push_chars(&mut out, &style);
    let kind = write_item_kind(item);
    push_chars(&mut out, &kind);
    out
}

/// The JSON objects of items with commas between them, the first `n` of them.
pub open spec fn items_json(items: Seq<ItemView>, n: nat) -> Seq<char>
    decreases n,
{
    if n == 0 {
        Seq::empty()
    } else {
        let comma = if n == 1 {
            Seq::empty()
        } else {
            ","@
        };
        items_json(items, (n - 1) as nat) + comma + item_json(items[n - 1])
    }
}

/// How many of the first `n` items are underlined.
pub open spec fn underlined(items: Seq<ItemView>, n: nat) -> nat
    decreases n,
{
    if n == 0 {
        0
    } else {
        underlined(items, (n - 1) as nat) + if items[n - 1].is_underline {
            1nat
        } else {
            0nat
        }
    }
}

/// The report on positioned items.
pub open spec fn items_report(items: Seq<ItemView>) -> Seq<char> {
    "{\"total_items\":"@ + decimal(items.len()) + ",\"underlined_count\":"@ + decimal(underlined(items, items.len()))
        + ",\"items\":["@ + items_json(items, items.len()) + "]}"@
}

fn count_underlined(items: &Vec<TextItem>) -> (r: usize)
    ensures
        r == underlined(views(items@), items@.len()),
{
    let ghost model = views(items@);
    let mut count: usize = 0;
    let mut i: usize = 0;
    while i < items.len()
        invariant
            i <= items@.len(),
            model == views(items@),
            count == underlined(model, i as nat),
            count <= i,
        decreases items@.len() - i,
    {
        assert(model[i as int] == items@[i as int]@);
        if items[i].is_underline {
            count += 1;
        }
        i += 1;
    }
    count
}

/// Positioned items as JSON.
pub fn format_items_json(items: &Vec<TextItem>) -> (r: String)
    ensures
        r@ == items_report(views(items@)),
{
    let ghost model = views(items@);
    let mut list: Vec<char> = Vec::new();
    let mut i: usize = 0;
    while i < items.len()
        invariant
            i <= items@.len(),
            model == views(items@),
            list@ == items_json(model, i as nat),
        decreases items@.len() - i,
    {
        assert(model[i as int] == items@[i as int]@);
        if i > 0 {
            push_text(&mut list, ",");
        }
        let object = write_item(&items[i]);
        push_chars(&mut list, &object);
        i += 1;
        assert(list@ =~= items_json(model, i as nat));
    }
    let mut out = characters("{\"total_items\":");
    push_decimal(&mut out, items.len() as u128);
    push_text(&mut out, ",\"underlined_count\":");
    push_decimal(&mut out, count_underlined(items) as u128);
    push_text(&mut out, ",\"items\":[");
    push_chars(&mut out, &list);
    push_text(&mut out, "]}");
    text_of(&out)
}

/// A number with four places, or `null`.
pub open spec fn optional_number(value: Option<Single>) -> Seq<char> {
    match value {
        Some(x) => if x.spec_finite() {
            fixed(x, 4)
        } else {
            "null"@
        },
        None => "null"@,
    }
}

/// Appends a number with four places, or `null` if there is no finite one.
pub fn optional_json_number(out: &mut Vec<char>, value: Option<Single>)
    ensures
        final(out)@ == old(out)@ + optional_number(value),
{
    match value {
        Some(x) => {
            if x.is_finite() {
                push_fixed(out, x, 4);
            } else {
                push_text(out, "null");
            }
        },
        None => {
            push_text(out, "null");
        },
    }
}

/// The JSON object for a failure.
pub fn format_ocr_error_json(error: &str) -> (r: String)
    ensures
        r@ == "{\"schema_version\":1,\"error\":\""@ + escaped(error@) + "\"}"@,
{
    let mut out: Vec<char> = Vec::new();
    push_text(&mut out, "{\"schema_version\":1,\"error\":\"");
    push_escaped(&mut out, error);
    push_text(&mut out, "\"}");
    assert(out@ =~= "{\"schema_version\":1,\"error\":\""@ + escaped(error@) + "\"}"@);
    text_of(&out)
}

} // verus!
