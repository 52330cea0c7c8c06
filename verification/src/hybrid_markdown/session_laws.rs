//! What the requests and submissions of a session owe to its pages.

use crate::fractions::{fits, fraction, law_fractions_divide_exactly};
use crate::hybrid_markdown::document::PageArea;
use crate::hybrid_markdown::reasons::reasons_of;
use crate::hybrid_markdown::session::{
    area_of_page, first_missing, has_extent, is_selected, request_of, requests_of, submission, with_page, RequestView,
    SubmittedView,
};
use vstd::prelude::*;

verus! {

/// A page that is to be asked for.
pub open spec fn asked_for(pages: Seq<u32>, filter: Option<Seq<u32>>, areas: Seq<PageArea>, n: nat, page: u32) -> bool {
    pages.take(n as int).contains(page) && is_selected(filter, page) && has_extent(area_of_page(areas, page))
}

/// The request shows its page as it lies in the document, with its reasons.
pub open spec fn fits_its_page(request: RequestView, areas: Seq<PageArea>, reasons: Map<u32, Seq<Seq<char>>>) -> bool {
    &&& request.reasons == reasons_of(reasons, request.page)
    &&& 1 <= request.page <= areas.len() ==> {
        &&& request.x == areas[request.page - 1].x
        &&& request.y == areas[request.page - 1].y
        &&& request.width == areas[request.page - 1].width
        &&& request.height == areas[request.page - 1].height
    }
}

/// Every selected page with an extent is asked for, with its own area and its
/// own reasons, and no other page is.
pub proof fn law_requests_ask_for_their_pages(
    pages: Seq<u32>,
    filter: Option<Seq<u32>>,
    areas: Seq<PageArea>,
    reasons: Map<u32, Seq<Seq<char>>>,
    n: nat,
)
    requires
        n <= pages.len(),
    ensures
        ({
            let requests = requests_of(pages, filter, areas, reasons, n);
            &&& requests.len() <= n
            &&& forall|i: int|
                0 <= i < requests.len() ==> fits_its_page(#[trigger] requests[i], areas, reasons) && asked_for(
                    pages,
                    filter,
                    areas,
                    n,
                    requests[i].page,
                )
            &&& forall|page: u32|
                asked_for(pages, filter, areas, n, page) ==> exists|i: int|
                    0 <= i < requests.len() && (#[trigger] requests[i]).page == page
        }),
    decreases n,
{
    if n > 0 {
        let m = (n - 1) as nat;
        law_requests_ask_for_their_pages(pages, filter, areas, reasons, m);
        let before = requests_of(pages, filter, areas, reasons, m);
        let requests = requests_of(pages, filter, areas, reasons, n);
        let last = pages[n - 1];
        assert(pages.take(n as int) =~= pages.take(m as int).push(last));
        assert(pages.take(n as int)[m as int] == last);
        assert forall|i: int| 0 <= i < requests.len() implies fits_its_page(#[trigger] requests[i], areas, reasons)
            && asked_for(pages, filter, areas, n, requests[i].page) by {
            if i < before.len() {
                assert(requests[i] == before[i]);
                let k = pages.take(m as int).index_of(before[i].page);
                assert(pages.take(n as int)[k] == before[i].page);
            } else {
                assert(requests[i] == request_of(last, areas, reasons));
            }
        }
        assert forall|page: u32| asked_for(pages, filter, areas, n, page) implies exists|i: int|
            0 <= i < requests.len() && (#[trigger] requests[i]).page == page by {
            if pages.take(m as int).contains(page) {
                assert(asked_for(pages, filter, areas, m, page));
                let i = choose|i: int| 0 <= i < before.len() && (#[trigger] before[i]).page == page;
                assert(requests[i] == before[i]);
            } else {
                let k = pages.take(n as int).index_of(page);
                assert(pages.take(n as int)[k] == page);
                assert(k == m) by {
                    if k < m {
                        assert(pages.take(m as int)[k] == page);
                    }
                }
                assert(requests[requests.len() - 1].page == page);
            }
        }
    } else {
        assert(pages.take(0) =~= Seq::<u32>::empty());
    }
}

/// The expected ratio of a page is how often its height goes into its width.
pub proof fn law_aspect_is_width_by_height(
    page: u32,
    areas: Seq<PageArea>,
    reasons: Map<u32, Seq<Seq<char>>>,
    ratio: int,
    j: nat,
    height: int,
    k: nat,
)
    requires
        fraction(area_of_page(areas, page).height, height, k),
        fraction(area_of_page(areas, page).width, ratio * height, j + k),
        height != 0,
        fits(ratio),
        j + k <= 149,
    ensures
        fraction(request_of(page, areas, reasons).expected_aspect_ratio, ratio, j),
{
    let area = area_of_page(areas, page);
    law_fractions_divide_exactly(area.width, area.height, ratio, height, j, k);
}

/// The pages ascend.
pub open spec fn ascends(pages: Seq<SubmittedView>) -> bool {
    forall|i: int, j: int| 0 <= i < j < pages.len() ==> (#[trigger] pages[i]).page < (#[trigger] pages[j]).page
}

proof fn lemma_no_submission(pages: Seq<SubmittedView>, page: u32)
    requires
        forall|i: int| 0 <= i < pages.len() ==> (#[trigger] pages[i]).page != page,
    ensures
        submission(pages, page) is None,
    decreases pages.len(),
{
    if pages.len() > 0 {
        let rest = pages.drop_last();
        assert forall|i: int| 0 <= i < rest.len() implies (#[trigger] rest[i]).page != page by {
            assert(rest[i] == pages[i]);
        }
        lemma_no_submission(rest, page);
    }
}

/// A submission is found under its page, and the others are found as before;
/// the pages still ascend.
pub proof fn law_submissions_are_found_under_their_page(pages: Seq<SubmittedView>, x: SubmittedView, page: u32)
    requires
        ascends(pages),
        forall|i: int| 0 <= i < pages.len() ==> (#[trigger] pages[i]).page != x.page,
    ensures
        submission(with_page(pages, x), x.page) == Some(x.items),
        page != x.page ==> submission(with_page(pages, x), page) == submission(pages, page),
        ascends(with_page(pages, x)),
        with_page(pages, x).len() == pages.len() + 1,
        forall|i: int|
            0 <= i < with_page(pages, x).len() ==> (#[trigger] with_page(pages, x)[i]) == x || pages.contains(
                with_page(pages, x)[i],
            ),
    decreases pages.len(),
{
    let all = with_page(pages, x);
    if pages.len() == 0 || pages.last().page < x.page {
        assert(all.drop_last() =~= pages);
        assert forall|i: int, j: int| 0 <= i < j < all.len() implies (#[trigger] all[i]).page < (#[trigger] all[j]).page by {
            if j == pages.len() {
                if i < pages.len() - 1 {
                    assert(pages[i].page < pages[pages.len() - 1].page);
                }
            }
        }
    } else {
        let rest = pages.drop_last();
        assert(forall|i: int| 0 <= i < rest.len() ==> rest[i] == pages[i]);
        assert(pages[pages.len() - 1].page != x.page);
        law_submissions_are_found_under_their_page(rest, x, page);
        let inner = with_page(rest, x);
        assert(all.drop_last() =~= inner);
        assert forall|i: int| 0 <= i < all.len() implies (#[trigger] all[i]) == x || pages.contains(all[i]) by {
            if i < inner.len() {
                assert(all[i] == inner[i]);
                if inner[i] != x {
                    let k = rest.index_of(inner[i]);
                    assert(pages[k] == all[i]);
                }
            } else {
                assert(pages[pages.len() - 1] == all[i]);
            }
        }
        assert forall|i: int, j: int| 0 <= i < j < all.len() implies (#[trigger] all[i]).page < (#[trigger] all[j]).page by {
            assert(all[i] == inner[i]);
            if j < inner.len() {
                assert(all[j] == inner[j]);
            } else if inner[i] != x {
                let k = rest.index_of(inner[i]);
                assert(rest[k] == inner[i]);
                assert(pages[k].page < pages[pages.len() - 1].page);
            }
        }
    }
}

/// What is missing first is the first request without a submission.
pub proof fn law_the_first_gap_is_reported(requests: Seq<RequestView>, pages: Seq<SubmittedView>, n: nat, at: int)
    requires
        0 <= at < n <= requests.len(),
        submission(pages, requests[at].page) is None,
        forall|i: int| 0 <= i < at ==> submission(pages, (#[trigger] requests[i]).page) is Some,
    ensures
        first_missing(requests, pages, n) == Some(requests[at].page),
    decreases n,
{
    if n - 1 > at {
        law_the_first_gap_is_reported(requests, pages, (n - 1) as nat, at);
    } else {
        lemma_nothing_missing(requests, pages, at as nat);
    }
}

proof fn lemma_nothing_missing(requests: Seq<RequestView>, pages: Seq<SubmittedView>, n: nat)
    requires
        n <= requests.len(),
        forall|i: int| 0 <= i < n ==> submission(pages, (#[trigger] requests[i]).page) is Some,
    ensures
        first_missing(requests, pages, n) is None,
    decreases n,
{
    if n > 0 {
        lemma_nothing_missing(requests, pages, (n - 1) as nat);
        assert(submission(pages, requests[n - 1].page) is Some);
    }
}

} // verus!
