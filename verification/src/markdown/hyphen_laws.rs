//! What mending hyphens and dropping page numbers owes to the text.

use crate::markdown::cleaning::{lemma_visible_sum, visible};
use crate::markdown::postprocess::{
    dropped, in_code, is_blank, is_break, is_fence, mended_break, tightened, without_numbers,
};
use crate::patterns::{covered, group, MatchView};
use crate::text::trimmed;
use crate::text_utils::page_number_line;
use crate::unicode::{lowercased, uppercase, white_space};
use vstd::prelude::*;

verus! {

/// A break of a line inside a word.
pub open spec fn broken(m: MatchView, a: Seq<char>, b: Seq<char>) -> bool {
    m.groups == seq![a, b] && m.whole == a + seq!['-', ' '] + b
}

/// A broken word that the document knows whole is put together; a capital keeps
/// its hyphen; in every case the letters stay, and only the hyphen and the space
/// can go.
pub proof fn law_broken_words_are_mended_by_evidence(
    m: MatchView,
    a: Seq<char>,
    b: Seq<char>,
    words: Set<Seq<char>>,
    compounds: Set<Seq<char>>,
)
    requires
        broken(m, a, b),
        b.len() > 0,
    ensures
        ({
            let got = mended_break(m, words, compounds);
            let known = words.contains(lowercased(a) + lowercased(b));
            let short = a.len() + b.len() <= 40;
            &&& short && known ==> got == a + b
            &&& short && !known && uppercase(b[0]) ==> got == a.push('-') + b
            &&& short && !known && compounds.contains(lowercased(a).push('-') + lowercased(b)) ==> got == a.push('-') + b
            &&& !short ==> got == m.whole
            &&& got == a + b || got == a.push('-') + b || got == m.whole
        }),
{
    reveal_strlit("-");
    reveal_strlit("- ");
    assert("-"@ =~= seq!['-']);
    assert("- "@ =~= seq!['-', ' ']);
    assert(group(m, 0) == a && group(m, 1) == b);
    assert(lowercased(a) + "-"@ + lowercased(b) =~= lowercased(a).push('-') + lowercased(b));
    assert(a + "-"@ + b =~= a.push('-') + b);
}

/// A hyphen between spaces that joins two letters stands without them.
pub open spec fn loosely_joined(m: MatchView) -> bool {
    m.groups.len() == 2 && m.whole == m.groups[0] + seq![' ', '-', ' '] + m.groups[1]
}

/// Tightening hyphens takes away the spaces around them and no visible
/// character.
pub proof fn law_tight_hyphens_keep_the_visible(matches: Seq<MatchView>, n: nat)
    requires
        n <= matches.len(),
        forall|i: int| 0 <= i < n ==> loosely_joined(#[trigger] matches[i]),
    ensures
        visible(tightened(matches, n)) == visible(covered(matches, n)),
        tightened(matches, n).len() + 2 * n == covered(matches, n).len(),
    decreases n,
{
    if n > 0 {
        let k = (n - 1) as nat;
        law_tight_hyphens_keep_the_visible(matches, k);
        let m = matches[n - 1];
        assert(loosely_joined(m));
        reveal_strlit("-");
        assert("-"@ =~= seq!['-']);
        let a = m.groups[0];
        let b = m.groups[1];
        let x = tightened(matches, k);
        let y = covered(matches, k);
        let hyphen = seq!['-'];
        let loose = seq![' ', '-', ' '];
        assert(visible(loose) == visible(hyphen)) by {
            reveal_with_fuel(visible, 4);
            assert(white_space(' ') && !white_space('-'));
            assert(loose.drop_last() =~= seq![' ', '-']);
            assert(seq![' ', '-'].drop_last() =~= seq![' ']);
            assert(seq![' '].drop_last() =~= Seq::<char>::empty());
            assert(hyphen.drop_last() =~= Seq::<char>::empty());
        }
        lemma_visible_sum(x, m.before);
        lemma_visible_sum(x + m.before, a);
        lemma_visible_sum(x + m.before + a, hyphen);
        lemma_visible_sum(x + m.before + a + hyphen, b);
        lemma_visible_sum(y, m.before);
        lemma_visible_sum(y + m.before, m.whole);
        lemma_visible_sum(a, loose);
        lemma_visible_sum(a + loose, b);
        assert(visible(m.whole) == visible(a) + visible(hyphen) + visible(b));
        assert(visible(tightened(matches, n)) =~= visible(covered(matches, n)));
    }
}

/// A page number that stands alone between blank lines or page breaks goes; in
/// the midst of a text it stays, and so does every line that is no page number.
pub proof fn law_lone_page_numbers_go(lines: Seq<Seq<char>>, i: int)
    requires
        0 <= i < lines.len(),
    ensures
        ({
            let clear_above = i == 0 || is_blank(lines[i - 1]) || is_break(lines[i - 1]);
            let clear_below = i + 1 == lines.len() || is_blank(lines[i + 1]) || is_break(lines[i + 1]);
            &&& !page_number_line(trimmed(lines[i])) ==> !dropped(lines, i)
            &&& page_number_line(trimmed(lines[i])) && clear_above && clear_below ==> dropped(lines, i)
            &&& !clear_below ==> !dropped(lines, i)
            &&& page_number_line(trimmed(lines[i])) && i + 1 < lines.len() && is_break(lines[i + 1]) ==> dropped(lines, i)
        }),
{
    if i + 1 < lines.len() && is_break(lines[i + 1]) {
        reveal_strlit("---");
    }
}

/// Every line that does not go stays, and the lines that stay keep their order.
pub proof fn law_other_lines_stay(lines: Seq<Seq<char>>, n: nat, i: int)
    requires
        0 <= i < n <= lines.len(),
        !dropped(lines, i),
    ensures
        without_numbers(lines, n).contains(lines[i]),
    decreases n,
{
    let before = without_numbers(lines, (n - 1) as nat);
    let all = without_numbers(lines, n);
    if i == n - 1 {
        assert(all[all.len() - 1] == lines[i]);
    } else {
        law_other_lines_stay(lines, (n - 1) as nat, i);
        let k = before.index_of(lines[i]);
        assert(all[k] == lines[i]);
    }
}

/// The number of fences among the first `n` lines.
pub open spec fn fences(lines: Seq<Seq<char>>, n: nat) -> nat
    decreases n,
{
    if n == 0 {
        0
    } else if is_fence(lines[n - 1]) {
        fences(lines, (n - 1) as nat) + 1
    } else {
        fences(lines, (n - 1) as nat)
    }
}

/// A text is in code behind an odd number of fences.
pub proof fn law_fences_open_and_close_code(lines: Seq<Seq<char>>, n: nat)
    requires
        n <= lines.len(),
    ensures
        in_code(lines, n) <==> fences(lines, n) % 2 == 1,
    decreases n,
{
    if n > 0 {
        law_fences_open_and_close_code(lines, (n - 1) as nat);
    }
}

} // verus!
