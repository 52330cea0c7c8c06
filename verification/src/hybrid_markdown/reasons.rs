//! Why pages need OCR: a table from page numbers to reasons.

use crate::text::{same_text, strings};
use vstd::prelude::*;

verus! {

/// The reasons why one page needs OCR.
#[derive(Debug)]
pub struct PageOcrReasons {
    /// 1-indexed page number.
    pub page: u32,
    pub reasons: Vec<String>,
}

/// What the reasons of a page are.
#[verifier::ext_equal]
pub struct ReasonsView {
    pub page: u32,
    pub reasons: Seq<Seq<char>>,
}

impl View for PageOcrReasons {
    type V = ReasonsView;

    open spec fn view(&self) -> ReasonsView {
        ReasonsView { page: self.page, reasons: strings(self.reasons@) }
    }
}

/// Reasons by page, in ascending order of the pages.
#[derive(Debug)]
pub struct OcrReasons {
    pub entries: Vec<PageOcrReasons>,
}

/// What the entries are.
pub open spec fn entry_views(entries: Seq<PageOcrReasons>) -> Seq<ReasonsView> {
    Seq::new(entries.len(), |i: int| entries[i]@)
}

/// The pages of the entries grow strictly.
pub open spec fn by_page(entries: Seq<ReasonsView>) -> bool {
    forall|i: int, j: int| 0 <= i < j < entries.len() ==> (#[trigger] entries[i]).page < (#[trigger] entries[j]).page
}

/// The entries as a map.
pub open spec fn table(entries: Seq<ReasonsView>) -> Map<u32, Seq<Seq<char>>>
    decreases entries.len(),
{
    if entries.len() == 0 {
        Map::empty()
    } else {
        table(entries.drop_last()).insert(entries.last().page, entries.last().reasons)
    }
}

impl View for OcrReasons {
    type V = Map<u32, Seq<Seq<char>>>;

    open spec fn view(&self) -> Map<u32, Seq<Seq<char>>> {
        table(entry_views(self.entries@))
    }
}

/// The reasons of a page: none where the map has no entry.
pub open spec fn reasons_of(map: Map<u32, Seq<Seq<char>>>, page: u32) -> Seq<Seq<char>> {
    if map.dom().contains(page) {
        map[page]
    } else {
        Seq::empty()
    }
}

/// A list of reasons with one more, unless it is there already.
pub open spec fn with_reason(list: Seq<Seq<char>>, reason: Seq<char>) -> Seq<Seq<char>> {
    if list.contains(reason) {
        list
    } else {
        list.push(reason)
    }
}

/// A list of reasons with the first `n` of others.
pub open spec fn with_reasons(list: Seq<Seq<char>>, more: Seq<Seq<char>>, n: nat) -> Seq<Seq<char>>
    decreases n,
{
    if n == 0 {
        list
    } else {
        with_reason(with_reasons(list, more, (n - 1) as nat), more[n - 1])
    }
}

/// A map with one more reason for a page.
pub open spec fn reason_added(map: Map<u32, Seq<Seq<char>>>, page: u32, reason: Seq<char>) -> Map<
    u32,
    Seq<Seq<char>>,
> {
    map.insert(page, with_reason(reasons_of(map, page), reason))
}

/// Two maps as one: the reasons of the second come after those of the first.
pub open spec fn merged(a: Map<u32, Seq<Seq<char>>>, b: Map<u32, Seq<Seq<char>>>) -> Map<u32, Seq<Seq<char>>> {
    Map::new(
        |page: u32| a.dom().contains(page) || (b.dom().contains(page) && b[page].len() > 0),
        |page: u32| with_reasons(reasons_of(a, page), reasons_of(b, page), reasons_of(b, page).len()),
    )
}

proof fn lemma_table(entries: Seq<ReasonsView>)
    requires
        by_page(entries),
    ensures
        forall|page: u32| #[trigger]
            table(entries).dom().contains(page) <==> exists|i: int|
                0 <= i < entries.len() && (#[trigger] entries[i]).page == page,
        forall|i: int| 0 <= i < entries.len() ==> table(entries)[(#[trigger] entries[i]).page] == entries[i].reasons,
    decreases entries.len(),
{
    if entries.len() > 0 {
        let front = entries.drop_last();
        lemma_table(front);
        assert forall|i: int| 0 <= i < entries.len() implies table(entries)[(#[trigger] entries[i]).page]
            == entries[i].reasons by {
            if i < front.len() {
                assert(front[i] == entries[i]);
            }
        }
        assert forall|page: u32| #[trigger] table(entries).dom().contains(page) <==> exists|i: int|
            0 <= i < entries.len() && (#[trigger] entries[i]).page == page by {
            if table(front).dom().contains(page) {
                let k = choose|k: int| 0 <= k < front.len() && (#[trigger] front[k]).page == page;
                assert(entries[k].page == page);
            }
            if page == entries.last().page {
                assert(entries[entries.len() - 1].page == page);
            }
            if exists|i: int| 0 <= i < entries.len() && (#[trigger] entries[i]).page == page {
                let k = choose|k: int| 0 <= k < entries.len() && (#[trigger] entries[k]).page == page;
                if k < front.len() {
                    assert(front[k].page == page);
                }
            }
        }
    }
}

/// Whether a text is among others.
fn has_text(list: &Vec<String>, text: &str) -> (r: bool)
    ensures
        r == strings(list@).contains(text@),
{
    let ghost model = strings(list@);
    let mut i: usize = 0;
    while i < list.len()
        invariant
            i <= list@.len(),
            model == strings(list@),
            forall|k: int| 0 <= k < i ==> model[k] != text@,
        decreases list@.len() - i,
    {
        assert(model[i as int] == list@[i as int]@);
        if same_text(list[i].as_str(), text) {
            assert(model[i as int] == text@);
            return true;
        }
        i += 1;
    }
    false
}

/// A copy of texts.
pub fn copy_strings(list: &Vec<String>) -> (r: Vec<String>)
    ensures
        strings(r@) == strings(list@),
{
    let mut out: Vec<String> = Vec::new();
    let mut i: usize = 0;
    while i < list.len()
        invariant
            i <= list@.len(),
            strings(out@) == strings(list@).take(i as int),
        decreases list@.len() - i,
    {
        let ghost before = out@;
        out.push(list[i].clone());
        i += 1;
        assert(strings(out@) =~= strings(before).push(list@[i - 1]@));
        assert(strings(list@).take(i as int) =~= strings(list@).take(i - 1).push(list@[i - 1]@));
    }
    assert(strings(list@).take(list@.len() as int) =~= strings(list@));
    out
}

impl OcrReasons {
    /// The pages of the entries grow strictly.
    pub open spec fn wf(self) -> bool {
        by_page(entry_views(self.entries@))
    }

    /// No reasons at all.
    pub fn new() -> (r: Self)
        ensures
            r.wf(),
            r@ == Map::<u32, Seq<Seq<char>>>::empty(),
    {
        let r = OcrReasons { entries: Vec::new() };
        assert(entry_views(r.entries@) =~= Seq::empty());
        r
    }

    /// Where the page stands among the entries, or would stand.
    fn position(&self, page: u32) -> (r: usize)
        requires
            self.wf(),
        ensures
            r <= self.entries@.len(),
            forall|i: int| 0 <= i < r ==> (#[trigger] self.entries@[i]).page < page,
            forall|i: int| r <= i < self.entries@.len() ==> (#[trigger] self.entries@[i]).page >= page,
    {
        let mut at: usize = 0;
        while at < self.entries.len() && self.entries[at].page < page
            invariant
                at <= self.entries@.len(),
                forall|i: int| 0 <= i < at ==> (#[trigger] self.entries@[i]).page < page,
            decreases self.entries@.len() - at,
        {
            at += 1;
        }
        assert forall|i: int| at <= i < self.entries@.len() implies (#[trigger] self.entries@[i]).page >= page by {
            let model = entry_views(self.entries@);
            assert(model[at as int].page == self.entries@[at as int].page);
            assert(model[i].page == self.entries@[i].page);
        }
        at
    }

    /// The reasons of a page: none where there is no entry.
    pub fn get(&self, page: u32) -> (r: Vec<String>)
        requires
            self.wf(),
        ensures
            strings(r@) == reasons_of(self@, page),
    {
        let at = self.position(page);
        let ghost model = entry_views(self.entries@);
        proof {
            lemma_table(model);
        }
        if at < self.entries.len() && self.entries[at].page == page {
            assert(model[at as int].page == page);
            copy_strings(&self.entries[at].reasons)
        } else {
            let none: Vec<String> = Vec::new();
            proof {
                assert forall|i: int| 0 <= i < model.len() implies (#[trigger] model[i]).page != page by {
                    assert(model[i].page == self.entries@[i].page);
                    if i > at {
                        assert(model[at as int].page < model[i].page);
                        assert(model[at as int].page == self.entries@[at as int].page);
                    }
                }
                assert(strings(none@) =~= Seq::empty());
            }
            none
        }
    }

    /// Adds a reason to a page, unless the page has it.
    pub fn add_reason(&mut self, page: u32, reason: &str)
        requires
            old(self).wf(),
        ensures
            final(self).wf(),
            final(self)@ == reason_added(old(self)@, page, reason@),
    {
        let ghost before = entry_views(self.entries@);
        let at = self.position(page);
        proof {
            lemma_table(before);
            assert forall|i: int| 0 <= i < before.len() implies (#[trigger] before[i]).page
                == self.entries@[i].page by {}
        }
        if at < self.entries.len() && self.entries[at].page == page {
            assert(before[at as int].page == page);
            let known = has_text(&self.entries[at].reasons, reason);
            if !known {
                let ghost list = strings(self.entries@[at as int].reasons@);
                let ghost old_entries = self.entries@;
                self.entries[at].reasons.push(reason.to_string());
                let ghost after = entry_views(self.entries@);
                proof {
                    assert(strings(self.entries@[at as int].reasons@) =~= list.push(reason@));
                    assert(after =~= before.update(
                        at as int,
                        ReasonsView { page, reasons: list.push(reason@) },
                    ));
                    lemma_updated(before, at as int, list.push(reason@));
                }
            } else {
                proof {
                    assert(reason_added(table(before), page, reason@) =~= table(before));
                }
            }
        } else {
            let mut list: Vec<String> = Vec::new();
            list.push(reason.to_string());
            let entry = PageOcrReasons { page, reasons: list };
            let ghost old_entries = self.entries@;
            self.entries.insert(at, entry);
            let ghost after = entry_views(self.entries@);
            proof {
                assert(strings(list@) =~= seq![reason@]);
                let x = ReasonsView { page, reasons: seq![reason@] };
                assert(self.entries@ =~= old_entries.insert(at as int, entry));
                assert forall|i: int| 0 <= i < after.len() implies after[i] == before.insert(at as int, x)[i] by {
                    if i < at {
                        assert(after[i] == before[i]);
                    } else if i > at {
                        assert(after[i] == before[i - 1]);
                    }
                }
                assert(after =~= before.insert(at as int, x));
                assert forall|i: int| at <= i < before.len() implies (#[trigger] before[i]).page > page by {
                    if i > at {
                        assert(before[at as int].page < before[i].page);
                    }
                }
                lemma_inserted(before, at as int, x);
                assert(!table(before).dom().contains(page));
                assert(with_reason(Seq::empty(), reason@) =~= seq![reason@]) by {
                    assert(Seq::<Seq<char>>::empty().push(reason@) =~= seq![reason@]);
                }
            }
        }
    }

    /// Adds reasons page by page, those that are not there yet.
    pub fn merge_pages(&mut self, list: &Vec<PageOcrReasons>)
        requires
            old(self).wf(),
        ensures
            final(self).wf(),
            final(self)@ == with_pages(old(self)@, entry_views(list@), list@.len()),
    {
        let ghost before = self@;
        let ghost model = entry_views(list@);
        let mut i: usize = 0;
        while i < list.len()
            invariant
                i <= list@.len(),
                model == entry_views(list@),
                self.wf(),
                self@ == with_pages(before, model, i as nat),
            decreases list@.len() - i,
        {
            let page = list[i].page;
            let ghost all = strings(list@[i as int].reasons@);
            let ghost start = self@;
            let mut k: usize = 0;
            assert(model[i as int] == list@[i as int]@);
            while k < list[i].reasons.len()
                invariant
                    i < list@.len(),
                    page == list@[i as int].page,
                    all == strings(list@[i as int].reasons@),
                    k <= all.len(),
                    self.wf(),
                    self@ == reasons_appended(start, page, all, k as nat),
                decreases all.len() - k,
            {
                self.add_reason(page, list[i].reasons[k].as_str());
                assert(all[k as int] == list@[i as int].reasons@[k as int]@);
                k += 1;
                proof {
                    lemma_appended_step(start, page, all, k as nat);
                }
            }
            i += 1;
        }
    }

    /// Adds the reasons of another table, those that are not there yet.
    pub fn merge(&mut self, other: &OcrReasons)
        requires
            old(self).wf(),
            other.wf(),
        ensures
            final(self).wf(),
            final(self)@ == merged(old(self)@, other@),
    {
        let ghost before = self@;
        let ghost model = entry_views(other.entries@);
        self.merge_pages(&other.entries);
        proof {
            lemma_with_pages(before, model, model.len());
            assert(model.take(model.len() as int) =~= model);
        }
    }

    /// The entries, in ascending order of the pages.
    pub fn into_pages(self) -> (r: Vec<PageOcrReasons>)
        requires
            self.wf(),
        ensures
            by_page(entry_views(r@)),
            table(entry_views(r@)) == self@,
    {
        self.entries
    }

    /// Whether there is no entry.
    pub fn is_empty(&self) -> (r: bool)
        requires
            self.wf(),
        ensures
            r == (self@ == Map::<u32, Seq<Seq<char>>>::empty()),
    {
        let ghost model = entry_views(self.entries@);
        proof {
            lemma_table(model);
            if model.len() > 0 {
                assert(self@.dom().contains(model[0].page));
            } else {
                assert(self@ =~= Map::<u32, Seq<Seq<char>>>::empty());
            }
        }
        self.entries.len() == 0
    }

    /// A copy of the table.
    pub fn copied(&self) -> (r: OcrReasons)
        requires
            self.wf(),
        ensures
            r.wf(),
            r@ == self@,
    {
        let mut entries: Vec<PageOcrReasons> = Vec::new();
        let mut i: usize = 0;
        while i < self.entries.len()
            invariant
                i <= self.entries@.len(),
                entry_views(entries@) == entry_views(self.entries@).take(i as int),
            decreases self.entries@.len() - i,
        {
            let ghost before = entries@;
            entries.push(
                PageOcrReasons { page: self.entries[i].page, reasons: copy_strings(&self.entries[i].reasons) },
            );
            i += 1;
            assert(entry_views(entries@) =~= entry_views(before).push(self.entries@[i - 1]@));
            assert(entry_views(self.entries@).take(i as int) =~= entry_views(self.entries@).take(i - 1).push(
                self.entries@[i - 1]@,
            ));
        }
        assert(entry_views(self.entries@).take(self.entries@.len() as int) =~= entry_views(self.entries@));
        OcrReasons { entries }
    }
}

/// A map with the first `n` entries of a list of reasons.
pub open spec fn with_pages(map: Map<u32, Seq<Seq<char>>>, list: Seq<ReasonsView>, n: nat) -> Map<u32, Seq<Seq<char>>>
    decreases n,
{
    if n == 0 {
        map
    } else {
        reasons_appended(
            with_pages(map, list, (n - 1) as nat),
            list[n - 1].page,
            list[n - 1].reasons,
            list[n - 1].reasons.len(),
        )
    }
}

proof fn lemma_with_pages(map: Map<u32, Seq<Seq<char>>>, list: Seq<ReasonsView>, n: nat)
    requires
        by_page(list),
        n <= list.len(),
    ensures
        with_pages(map, list, n) == merged(map, table(list.take(n as int))),
    decreases n,
{
    if n == 0 {
        assert(list.take(0) =~= Seq::empty());
        lemma_merged_with_nothing(map);
    } else {
        lemma_with_pages(map, list, (n - 1) as nat);
        lemma_merged_step(map, list, n - 1);
    }
}

/// A map with the first `k` of more reasons for a page.
pub open spec fn reasons_appended(map: Map<u32, Seq<Seq<char>>>, page: u32, more: Seq<Seq<char>>, k: nat) -> Map<
    u32,
    Seq<Seq<char>>,
> {
    if k == 0 {
        map
    } else {
        map.insert(page, with_reasons(reasons_of(map, page), more, k))
    }
}

proof fn lemma_appended_step(map: Map<u32, Seq<Seq<char>>>, page: u32, more: Seq<Seq<char>>, k: nat)
    requires
        k > 0,
    ensures
        reason_added(reasons_appended(map, page, more, (k - 1) as nat), page, more[k - 1]) == reasons_appended(
            map,
            page,
            more,
            k,
        ),
{
    let earlier = reasons_appended(map, page, more, (k - 1) as nat);
    assert(reasons_of(earlier, page) == with_reasons(reasons_of(map, page), more, (k - 1) as nat));
    assert(reason_added(earlier, page, more[k - 1]) =~= reasons_appended(map, page, more, k));
}

proof fn lemma_merged_with_nothing(map: Map<u32, Seq<Seq<char>>>)
    ensures
        merged(map, table(Seq::<ReasonsView>::empty())) == map,
{
    assert(merged(map, table(Seq::<ReasonsView>::empty())) =~= map);
}

proof fn lemma_merged_step(map: Map<u32, Seq<Seq<char>>>, entries: Seq<ReasonsView>, i: int)
    requires
        by_page(entries),
        0 <= i < entries.len(),
    ensures
        reasons_appended(
            merged(map, table(entries.take(i))),
            entries[i].page,
            entries[i].reasons,
            entries[i].reasons.len(),
        ) == merged(map, table(entries.take(i + 1))),
{
    let short = entries.take(i);
    let long = entries.take(i + 1);
    assert(long.drop_last() =~= short);
    assert(long.last() == entries[i]);
    let page = entries[i].page;
    let more = entries[i].reasons;
    assert(by_page(short)) by {
        assert forall|a: int, b: int| 0 <= a < b < short.len() implies (#[trigger] short[a]).page < (
        #[trigger] short[b]).page by {
            assert(short[a] == entries[a] && short[b] == entries[b]);
        }
    }
    lemma_table(short);
    assert(!table(short).dom().contains(page)) by {
        if table(short).dom().contains(page) {
            let k = choose|k: int| 0 <= k < short.len() && (#[trigger] short[k]).page == page;
            assert(short[k] == entries[k]);
        }
    }
    let start = merged(map, table(short));
    assert(reasons_of(table(short), page) =~= Seq::<Seq<char>>::empty());
    assert(reasons_of(start, page) =~= reasons_of(map, page));
    assert(table(long) == table(short).insert(page, more));
    assert(reasons_appended(start, page, more, more.len()) =~= merged(map, table(long))) by {
        let left = reasons_appended(start, page, more, more.len());
        let right = merged(map, table(long));
        assert forall|p: u32| left.dom().contains(p) <==> right.dom().contains(p) by {}
        assert forall|p: u32| left.dom().contains(p) implies left[p] == right[p] by {
            if p != page {
                assert(reasons_of(table(long), p) == reasons_of(table(short), p));
            } else {
                assert(reasons_of(table(long), p) == more);
            }
        }
    }
}

proof fn lemma_updated(entries: Seq<ReasonsView>, at: int, reasons: Seq<Seq<char>>)
    requires
        by_page(entries),
        0 <= at < entries.len(),
    ensures
        by_page(entries.update(at, ReasonsView { page: entries[at].page, reasons })),
        table(entries.update(at, ReasonsView { page: entries[at].page, reasons })) == table(entries).insert(
            entries[at].page,
            reasons,
        ),
{
    let page = entries[at].page;
    let after = entries.update(at, ReasonsView { page, reasons });
    assert forall|i: int| 0 <= i < after.len() implies (#[trigger] after[i]).page == entries[i].page by {}
    assert(by_page(after)) by {
        assert forall|a: int, b: int| 0 <= a < b < after.len() implies (#[trigger] after[a]).page < (
        #[trigger] after[b]).page by {
            assert(entries[a].page < entries[b].page);
        }
    }
    lemma_table(entries);
    lemma_table(after);
    assert(table(after) =~= table(entries).insert(page, reasons)) by {
        assert forall|p: u32| table(after).dom().contains(p) <==> table(entries).insert(
            page,
            reasons,
        ).dom().contains(p) by {
            if table(after).dom().contains(p) {
                let k = choose|k: int| 0 <= k < after.len() && (#[trigger] after[k]).page == p;
                assert(entries[k].page == p);
            }
            if table(entries).dom().contains(p) {
                let k = choose|k: int| 0 <= k < entries.len() && (#[trigger] entries[k]).page == p;
                assert(after[k].page == p);
            }
            assert(after[at].page == page);
        }
        assert forall|p: u32| table(after).dom().contains(p) implies table(after)[p] == table(entries).insert(
            page,
            reasons,
        )[p] by {
            let k = choose|k: int| 0 <= k < after.len() && (#[trigger] after[k]).page == p;
            assert(entries[k].page == p);
            if p == page {
                assert(k == at) by {
                    if k < at {
                        assert(entries[k].page < entries[at].page);
                    }
                    if at < k {
                        assert(entries[at].page < entries[k].page);
                    }
                }
            }
        }
    }
}

proof fn lemma_inserted(entries: Seq<ReasonsView>, at: int, x: ReasonsView)
    requires
        by_page(entries),
        0 <= at <= entries.len(),
        forall|i: int| 0 <= i < at ==> (#[trigger] entries[i]).page < x.page,
        forall|i: int| at <= i < entries.len() ==> (#[trigger] entries[i]).page > x.page,
    ensures
        by_page(entries.insert(at, x)),
        table(entries.insert(at, x)) == table(entries).insert(x.page, x.reasons),
        !table(entries).dom().contains(x.page),
{
    let after = entries.insert(at, x);
    assert forall|i: int| 0 <= i < after.len() implies #[trigger] after[i] == (if i < at {
        entries[i]
    } else if i == at {
        x
    } else {
        entries[i - 1]
    }) by {}
    assert(by_page(after)) by {
        assert forall|a: int, b: int| 0 <= a < b < after.len() implies (#[trigger] after[a]).page < (
        #[trigger] after[b]).page by {
            let i = if a < at {
                a
            } else {
                a - 1
            };
            let j = if b < at {
                b
            } else {
                b - 1
            };
            if a != at && b != at {
                assert(entries[i].page < entries[j].page);
            } else if a == at {
                assert(entries[b - 1].page > x.page);
            } else {
                assert(entries[a].page < x.page);
            }
        }
    }
    lemma_table(entries);
    lemma_table(after);
    assert(table(after) =~= table(entries).insert(x.page, x.reasons)) by {
        assert forall|p: u32| table(after).dom().contains(p) <==> table(entries).insert(
            x.page,
            x.reasons,
        ).dom().contains(p) by {
            if table(after).dom().contains(p) {
                let k = choose|k: int| 0 <= k < after.len() && (#[trigger] after[k]).page == p;
                if k < at {
                    assert(entries[k].page == p);
                } else if k > at {
                    assert(entries[k - 1].page == p);
                }
            }
            if table(entries).dom().contains(p) {
                let k = choose|k: int| 0 <= k < entries.len() && (#[trigger] entries[k]).page == p;
                if k < at {
                    assert(after[k].page == p);
                } else {
                    assert(after[k + 1].page == p);
                }
            }
            assert(after[at].page == x.page);
        }
        assert forall|p: u32| table(after).dom().contains(p) implies table(after)[p] == table(entries).insert(
            x.page,
            x.reasons,
        )[p] by {
            let k = choose|k: int| 0 <= k < after.len() && (#[trigger] after[k]).page == p;
            if k < at {
                assert(entries[k].page == p);
            } else if k > at {
                assert(entries[k - 1].page == p);
            }
        }
    }
    if table(entries).dom().contains(x.page) {
        let k = choose|k: int| 0 <= k < entries.len() && (#[trigger] entries[k]).page == x.page;
    }
}

/// Merging keeps the reasons that were there, in front, and adds none twice.
pub proof fn law_merging_keeps_reasons(a: Map<u32, Seq<Seq<char>>>, b: Map<u32, Seq<Seq<char>>>, page: u32)
    requires
        a.dom().contains(page),
    ensures
        merged(a, b).dom().contains(page),
        a[page].is_prefix_of(merged(a, b)[page]),
        forall|reason: Seq<char>| #[trigger]
            merged(a, b)[page].contains(reason) <==> a[page].contains(reason) || reasons_of(b, page).contains(reason),
        a[page].no_duplicates() ==> merged(a, b)[page].no_duplicates(),
{
    lemma_with_reasons(a[page], reasons_of(b, page), reasons_of(b, page).len());
    let more = reasons_of(b, page);
    assert(more.take(more.len() as int) =~= more);
}

proof fn lemma_with_reasons(list: Seq<Seq<char>>, more: Seq<Seq<char>>, n: nat)
    requires
        n <= more.len(),
    ensures
        list.is_prefix_of(with_reasons(list, more, n)),
        forall|reason: Seq<char>| #[trigger]
            with_reasons(list, more, n).contains(reason) <==> list.contains(reason) || more.take(n as int).contains(
                reason,
            ),
        list.no_duplicates() ==> with_reasons(list, more, n).no_duplicates(),
    decreases n,
{
    if n > 0 {
        lemma_with_reasons(list, more, (n - 1) as nat);
        let before = with_reasons(list, more, (n - 1) as nat);
        let after = with_reasons(list, more, n);
        let x = more[n - 1];
        let short = more.take(n - 1);
        let long = more.take(n as int);
        assert(long =~= short.push(x));
        assert forall|reason: Seq<char>| #[trigger] after.contains(reason) <==> list.contains(reason)
            || long.contains(reason) by {
            assert(before.contains(reason) <==> list.contains(reason) || short.contains(reason));
            if before.contains(reason) {
                let k = before.index_of(reason);
                assert(after[k] == reason);
            }
            if short.contains(reason) {
                let k = short.index_of(reason);
                assert(long[k] == reason);
            }
            if reason == x {
                assert(long[n - 1] == x);
                if !before.contains(x) {
                    assert(after[before.len() as int] == x);
                }
            }
            if after.contains(reason) && !before.contains(reason) {
                let k = after.index_of(reason);
                assert(k == before.len());
            }
            if long.contains(reason) {
                let k = long.index_of(reason);
                if k < n - 1 {
                    assert(short[k] == reason);
                }
            }
        }
    } else {
        assert(with_reasons(list, more, 0) == list);
        assert(more.take(0) =~= Seq::empty());
    }
}

} // verus!
