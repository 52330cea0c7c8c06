//! What holds of page specifications.

use crate::cli::arguments::{
    first_part_fault, first_place, in_page_spec, in_part, in_parts, page_spec_fault, part_of, PartView,
};
use crate::lines::separated;
use crate::numbers::{decimal, digits_value, natural_of, without_plus};
use crate::text::{trim_back, trim_front, trimmed};
use crate::text_utils::all_digits;
use crate::unicode::white_space;
use vstd::prelude::*;

verus! {

/// The pieces of two texts with a separator between them are the pieces of
/// the one, then those of the other.
proof fn lemma_pieces_join(s: Seq<char>, separator: char, t: Seq<char>)
    ensures
        separated(s + seq![separator] + t, separator) == separated(s, separator) + separated(t, separator),
        separated(t, separator).len() > 0,
    decreases t.len(),
{
    let whole = s + seq![separator] + t;
    if t.len() == 0 {
        assert(whole.drop_last() =~= s);
        assert(separated(whole, separator) =~= separated(s, separator) + separated(t, separator));
    } else {
        lemma_pieces_join(s, separator, t.drop_last());
        assert(whole.drop_last() =~= s + seq![separator] + t.drop_last());
        assert(separated(whole, separator) =~= separated(s, separator) + separated(t, separator));
    }
}

proof fn lemma_parts_in_front(a: Seq<Seq<char>>, b: Seq<Seq<char>>, n: nat, page: u32)
    requires
        n <= a.len(),
    ensures
        first_part_fault(a + b, n) == first_part_fault(a, n),
        in_parts(a + b, n, page) == in_parts(a, n, page),
    decreases n,
{
    if n > 0 {
        lemma_parts_in_front(a, b, (n - 1) as nat, page);
        assert((a + b)[n - 1] == a[n - 1]);
    }
}

proof fn lemma_parts_behind(a: Seq<Seq<char>>, b: Seq<Seq<char>>, n: nat, page: u32)
    requires
        n <= b.len(),
    ensures
        first_part_fault(a + b, a.len() + n) == match first_part_fault(a, a.len()) {
            Some(message) => Some(message),
            None => first_part_fault(b, n),
        },
        in_parts(a + b, a.len() + n, page) == (in_parts(a, a.len(), page) || in_parts(b, n, page)),
    decreases n,
{
    if n == 0 {
        lemma_parts_in_front(a, b, a.len(), page);
    } else {
        lemma_parts_behind(a, b, (n - 1) as nat, page);
        assert((a + b)[a.len() + n - 1] == b[n - 1]);
    }
}

/// Two page specifications with a comma between them ask for the pages of
/// both. The first fault is that of the first, or else that of the second.
pub proof fn law_page_specs_join(s: Seq<char>, t: Seq<char>)
    ensures
        page_spec_fault(s + seq![','] + t) == match page_spec_fault(s) {
            Some(message) => Some(message),
            None => page_spec_fault(t),
        },
        forall|page: u32| #[trigger]
            in_page_spec(s + seq![','] + t, page) <==> in_page_spec(s, page) || in_page_spec(t, page),
{
    let a = separated(s, ',');
    let b = separated(t, ',');
    lemma_pieces_join(s, ',', t);
    lemma_parts_behind(a, b, b.len(), 0);
    assert((a + b).len() == a.len() + b.len());
    assert forall|page: u32| #[trigger]
        in_page_spec(s + seq![','] + t, page) <==> in_page_spec(s, page) || in_page_spec(t, page) by {
        lemma_parts_behind(a, b, b.len(), page);
    }
}

proof fn lemma_part_pages(text: Seq<char>)
    ensures
        part_of(text) matches PartView::Pages { first, last } ==> 1 <= first <= last,
{
}

/// An accepted page specification asks for a page, and never for page 0.
pub proof fn law_accepted_page_specs_name_a_page(spec: Seq<char>)
    requires
        page_spec_fault(spec) is None,
    ensures
        exists|page: u32| in_page_spec(spec, page),
        !in_page_spec(spec, 0),
{
    let parts = separated(spec, ',');
    lemma_pieces_join(Seq::empty(), ',', spec);
    let last = parts[parts.len() - 1];
    lemma_part_pages(last);
    assert(first_part_fault(parts, parts.len()) is None);
    let page = match part_of(last) {
        PartView::Pages { first, .. } => first,
        PartView::Fault { .. } => 0,
    };
    assert(in_part(part_of(last), page));
    assert(in_page_spec(spec, page));
    lemma_no_page_zero(parts, parts.len());
}

proof fn lemma_no_page_zero(parts: Seq<Seq<char>>, n: nat)
    ensures
        !in_parts(parts, n, 0),
    decreases n,
{
    if n > 0 {
        lemma_no_page_zero(parts, (n - 1) as nat);
        lemma_part_pages(parts[n - 1]);
    }
}

proof fn lemma_decimal_reads_back(n: nat)
    ensures
        decimal(n).len() > 0,
        all_digits(decimal(n)),
        digits_value(decimal(n)) == n,
        forall|i: int| 0 <= i < decimal(n).len() ==> '0' <= #[trigger] decimal(n)[i] <= '9',
    decreases n,
{
    if n < 10 {
        assert(decimal(n).drop_last() =~= Seq::empty());
        assert(digits_value(decimal(n).drop_last()) == 0);
    } else {
        lemma_decimal_reads_back(n / 10);
        assert(decimal(n).drop_last() =~= decimal(n / 10));
        assert forall|i: int| 0 <= i < decimal(n).len() implies '0' <= #[trigger] decimal(n)[i] <= '9' by {
            if i < decimal(n / 10).len() {
                assert(decimal(n)[i] == decimal(n / 10)[i]);
            }
        }
    }
}

proof fn lemma_nothing_to_trim(s: Seq<char>)
    requires
        s.len() > 0,
        !white_space(s[0]),
        !white_space(s.last()),
    ensures
        trimmed(s) == s,
{
    assert(trim_front(s) == s);
    assert(trim_back(s) == s);
}

proof fn lemma_absent(s: Seq<char>, c: char, i: int, k: int)
    requires
        0 <= i <= k <= s.len(),
        forall|j: int| i <= j < k ==> s[j] != c,
    ensures
        first_place(s, c, i) == first_place(s, c, k),
    decreases k - i,
{
    if i < k {
        lemma_absent(s, c, i + 1, k);
    }
}

proof fn lemma_one_piece(s: Seq<char>, separator: char)
    requires
        forall|i: int| 0 <= i < s.len() ==> s[i] != separator,
    ensures
        separated(s, separator) == seq![s],
    decreases s.len(),
{
    if s.len() > 0 {
        assert forall|i: int| 0 <= i < s.drop_last().len() implies s.drop_last()[i] != separator by {
            assert(s.drop_last()[i] == s[i]);
        }
        lemma_one_piece(s.drop_last(), separator);
        assert(s.drop_last().push(s.last()) =~= s);
        assert(separated(s, separator) =~= seq![s]);
    } else {
        assert(s =~= Seq::empty());
        assert(separated(s, separator) =~= seq![s]);
    }
}

/// A range alone is accepted exactly if it starts at page 1 or later and does
/// not run backwards. It asks for the pages from its first to its last.
pub proof fn law_lone_range(first: u32, last: u32)
    ensures
        page_spec_fault(decimal(first as nat) + seq!['-'] + decimal(last as nat)) is None <==> 1 <= first <= last,
        1 <= first <= last ==> forall|page: u32| #[trigger]
            in_page_spec(decimal(first as nat) + seq!['-'] + decimal(last as nat), page) <==> first <= page <= last,
{
    let a = decimal(first as nat);
    let b = decimal(last as nat);
    let s = a + seq!['-'] + b;
    lemma_decimal_reads_back(first as nat);
    lemma_decimal_reads_back(last as nat);
    assert forall|i: int| 0 <= i < s.len() implies s[i] != ',' && (s[i] == '-' ==> i == a.len()) by {
        if i < a.len() {
            assert(s[i] == a[i]);
        } else if i > a.len() {
            assert(s[i] == b[i - a.len() - 1]);
        }
    }
    assert(s[0] == a[0]);
    assert(s.last() == b[b.len() - 1]);
    assert(a.last() == a[a.len() - 1]);
    lemma_one_piece(s, ',');
    lemma_nothing_to_trim(s);
    lemma_nothing_to_trim(a);
    lemma_nothing_to_trim(b);
    lemma_absent(s, '-', 0, a.len() as int);
    assert(s.take(a.len() as int) =~= a);
    assert(s.skip(a.len() as int + 1) =~= b);
    assert(without_plus(a) == a);
    assert(without_plus(b) == b);
    assert(natural_of(a) == Some(first as nat));
    assert(natural_of(b) == Some(last as nat));
    let parts = separated(s, ',');
    assert(first_part_fault(parts, 0) is None);
    assert(parts[0] == s);
    assert forall|page: u32| 1 <= first <= last implies (#[trigger] in_page_spec(s, page) <==> first <= page <= last) by {
        assert(!in_parts(parts, 0, page));
        assert(in_parts(parts, 1, page) == in_part(part_of(s), page));
    }
}

} // verus!
