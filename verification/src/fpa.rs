//! The full-page virtual allocator.
//!
//! Free runs of virtual pages inside the allocator window are kept as
//! `(start, pages)` entries in descriptor pages of `ENTRIES_LEN` slots
//! each; the pages form a list, and the entries, read page by page, are
//! sorted by start address, never overlap, and are always coalesced: two
//! runs that touch are merged at once.  `Empty` slots sink to the end of
//! each page.  The model here is the list of descriptor pages itself; the
//! frames that back each handed-out page are the hardware's side.

use vstd::prelude::*;
use crate::layout::{ALLOCATOR_START, ALLOCATOR_END};

verus! {

pub const ENTRIES_LEN: usize = 170;

pub const PAGE_SIZE: u64 = 4096;

/// Allocation failed: the free list has no run that fits.
#[derive(Debug, Clone, Copy, PartialEq, Eq, Structural)]
pub struct AllocError;

/// One slot of a descriptor page.
#[derive(Clone, Copy, PartialEq, Eq, Structural)]
pub enum Entry {
    Empty,
    Usable { start: u64, pages: u64 },
}

pub open spec fn e_usable(e: Entry) -> bool {
    e is Usable
}

pub open spec fn e_start(e: Entry) -> u64 {
    match e {
        Entry::Usable { start, .. } => start,
        Entry::Empty => 0,
    }
}

pub open spec fn e_pages(e: Entry) -> u64 {
    match e {
        Entry::Usable { pages, .. } => pages,
        Entry::Empty => 0,
    }
}

/// One descriptor page.
pub struct DescPage {
    pub entries: Vec<Entry>,
}

/// Index of the first `Empty` slot at or after `i`.
pub open spec fn first_empty(es: Seq<Entry>, i: int) -> int
    decreases es.len() - i when 0 <= i <= es.len()
{
    if i >= es.len() {
        i
    } else if !e_usable(es[i]) {
        i
    } else {
        first_empty(es, i + 1)
    }
}

/// How many slots at the front of the page hold a run.
pub open spec fn used_of(p: DescPage) -> int {
    first_empty(p.entries@, 0)
}

proof fn lemma_first_empty(es: Seq<Entry>, i: int)
    requires
        0 <= i <= es.len(),
    ensures
        i <= first_empty(es, i) <= es.len(),
        forall|j: int| i <= j < first_empty(es, i) ==> e_usable(#[trigger] es[j]),
        first_empty(es, i) < es.len() ==> !e_usable(es[first_empty(es, i)]),
    decreases es.len() - i,
{
    if i >= es.len() {
    } else if !e_usable(es[i]) {
    } else {
        lemma_first_empty(es, i + 1);
    }
}

proof fn lemma_first_empty_unique(es: Seq<Entry>, k: int)
    requires
        0 <= k <= es.len(),
        forall|j: int| 0 <= j < k ==> e_usable(#[trigger] es[j]),
        k < es.len() ==> !e_usable(es[k]),
    ensures
        first_empty(es, 0) == k,
{
    lemma_first_empty(es, 0);
}

/// A well-formed descriptor page: the fixed slot count, runs at the
/// front, `Empty` slots at the back.
pub open spec fn page_wf(p: DescPage) -> bool {
    &&& p.entries@.len() == ENTRIES_LEN
    &&& forall|i: int| used_of(p) <= i < ENTRIES_LEN ==> !e_usable(#[trigger] p.entries@[i])
}

/// The runs a single page holds, in slot order.
pub open spec fn pruns(p: DescPage) -> Seq<(u64, u64)> {
    Seq::new(used_of(p) as nat, |i: int| (e_start(p.entries@[i]), e_pages(p.entries@[i])))
}

/// All runs of the descriptor-page list, front page first.
pub open spec fn runs_of(ps: Seq<DescPage>) -> Seq<(u64, u64)>
    decreases ps.len(),
{
    if ps.len() == 0 {
        Seq::empty()
    } else {
        pruns(ps[0]) + runs_of(ps.drop_first())
    }
}

/// The run list splits around any page.
proof fn lemma_runs_split(ps: Seq<DescPage>, k: int)
    requires
        0 <= k < ps.len(),
    ensures
        runs_of(ps) == runs_of(ps.take(k)) + pruns(ps[k]) + runs_of(ps.skip(k + 1)),
    decreases k,
{
    if k == 0 {
        assert(ps.take(0) =~= Seq::<DescPage>::empty());
        assert(ps.skip(1) =~= ps.drop_first());
        assert(runs_of(ps.take(0)) =~= Seq::<(u64, u64)>::empty());
        assert(runs_of(ps) =~= runs_of(ps.take(0)) + pruns(ps[0]) + runs_of(ps.skip(1)));
    } else {
        lemma_runs_split(ps.drop_first(), k - 1);
        assert(ps.drop_first().take(k - 1) =~= ps.take(k).drop_first());
        assert(ps.drop_first().skip(k) =~= ps.skip(k + 1));
        assert(ps.drop_first()[k - 1] == ps[k]);
        assert(runs_of(ps.take(k)) == pruns(ps.take(k)[0]) + runs_of(ps.take(k).drop_first()));
        assert(ps.take(k)[0] == ps[0]);
        assert(runs_of(ps) =~= runs_of(ps.take(k)) + pruns(ps[k]) + runs_of(ps.skip(k + 1)));
    }
}

/// Taking one more page extends the run prefix by that page's runs.
proof fn lemma_take_split(ps: Seq<DescPage>, k: int)
    requires
        0 <= k < ps.len(),
    ensures
        runs_of(ps.take(k + 1)) == runs_of(ps.take(k)) + pruns(ps[k]),
{
    lemma_runs_split(ps.take(k + 1), k);
    assert(ps.take(k + 1).take(k) =~= ps.take(k));
    assert(ps.take(k + 1)[k] == ps[k]);
    assert(ps.take(k + 1).skip(k + 1) =~= Seq::<DescPage>::empty());
    assert(runs_of(ps.take(k + 1)) =~= runs_of(ps.take(k)) + pruns(ps[k]));
}

/// The exclusive end address of a run.
pub open spec fn run_end(r: (u64, u64)) -> int {
    r.0 as int + r.1 as int * (PAGE_SIZE as int)
}

/// Runs are sorted and disjoint; two neighbours may touch.
pub open spec fn runs_sorted_le(rs: Seq<(u64, u64)>) -> bool {
    &&& forall|i: int|
        0 <= i < rs.len() ==> 1 <= (#[trigger] rs[i]).1 && ALLOCATOR_START <= rs[i].0 && rs[i].0
            % PAGE_SIZE == 0 && run_end(rs[i]) <= ALLOCATOR_END as int + 1
    &&& forall|i: int|
        #![trigger rs[i], rs[i + 1]]
        0 <= i < rs.len() - 1 ==> run_end(rs[i]) <= rs[i + 1].0
}

/// Runs are sorted, disjoint and coalesced: a gap separates any two.
pub open spec fn runs_wf(rs: Seq<(u64, u64)>) -> bool {
    &&& runs_sorted_le(rs)
    &&& forall|i: int|
        #![trigger rs[i], rs[i + 1]]
        0 <= i < rs.len() - 1 ==> run_end(rs[i]) < rs[i + 1].0
}

/// Is the page at address `a` covered by some free run?
pub open spec fn covers(rs: Seq<(u64, u64)>, a: int) -> bool {
    exists|i: int| 0 <= i < rs.len() && (#[trigger] rs[i]).0 <= a < run_end(rs[i])
}

/// The first-fit position: the index of the first run of at least `n`
/// pages, if any.
pub open spec fn first_fit(rs: Seq<(u64, u64)>, n: u64) -> Option<int>
    decreases rs.len(),
{
    if rs.len() == 0 {
        None
    } else if rs[0].1 >= n {
        Some(0)
    } else {
        match first_fit(rs.drop_first(), n) {
            None => None,
            Some(i) => Some(i + 1),
        }
    }
}

proof fn lemma_first_fit(rs: Seq<(u64, u64)>, n: u64)
    ensures
        ({
            match first_fit(rs, n) {
                Some(i) => 0 <= i < rs.len() && rs[i].1 >= n && forall|j: int|
                    0 <= j < i ==> (#[trigger] rs[j]).1 < n,
                None => forall|j: int| 0 <= j < rs.len() ==> (#[trigger] rs[j]).1 < n,
            }
        }),
    decreases rs.len(),
{
    if rs.len() == 0 {
    } else if rs[0].1 >= n {
    } else {
        lemma_first_fit(rs.drop_first(), n);
        match first_fit(rs.drop_first(), n) {
            None => {
                assert forall|j: int| 0 <= j < rs.len() implies (#[trigger] rs[j]).1 < n by {
                    if j > 0 {
                        assert(rs.drop_first()[j - 1] == rs[j]);
                    }
                }
            },
            Some(i) => {
                assert(rs.drop_first()[i] == rs[i + 1]);
                assert forall|j: int| 0 <= j < i + 1 implies (#[trigger] rs[j]).1 < n by {
                    if j > 0 {
                        assert(rs.drop_first()[j - 1] == rs[j]);
                    }
                }
            },
        }
    }
}

/// The descriptor-page list of the allocator.
pub struct FPAInner {
    pub pages: Vec<DescPage>,
}

impl FPAInner {
    /// All descriptor pages are well-formed.
    pub open spec fn pages_wf(self) -> bool {
        forall|k: int| 0 <= k < self.pages@.len() ==> page_wf(#[trigger] self.pages@[k])
    }

    pub open spec fn runs(self) -> Seq<(u64, u64)> {
        runs_of(self.pages@)
    }

    /// Structurally sound: every page well-formed, and later pages only
    /// used while the earlier ones are full.
    pub open spec fn list_wf(self) -> bool {
        &&& self.pages_wf()
        &&& dense(self.pages@)
    }

    /// The allocator's invariant: a structurally sound list holding a
    /// sorted, disjoint, coalesced run list.
    pub open spec fn inv(self) -> bool {
        &&& self.list_wf()
        &&& runs_wf(self.runs())
    }

    /// The number of runs in the pages before `pi`.
    pub open spec fn base_of(self, pi: int) -> int {
        runs_of(self.pages@.take(pi)).len() as int
    }

    /// Replace the run in slot `idx` of page `pi`.
    fn set_run(&mut self, pi: usize, idx: usize, start: u64, pages: u64)
        requires
            old(self).list_wf(),
            pi < old(self).pages@.len(),
            idx < ENTRIES_LEN,
            (idx as int) < used_of(old(self).pages@[pi as int]),
        ensures
            final(self).list_wf(),
            final(self).pages@.len() == old(self).pages@.len(),
            forall|k: int|
                0 <= k < final(self).pages@.len() && k != pi as int ==> final(self).pages@[k]
                    == old(self).pages@[k],
            used_of(final(self).pages@[pi as int]) == used_of(old(self).pages@[pi as int]),
            final(self).runs() == old(self).runs().update(
                old(self).base_of(pi as int) + idx,
                (start, pages),
            ),
    {
        proof {
            lemma_first_empty(self.pages@[pi as int].entries@, 0);
            lemma_runs_split(self.pages@, pi as int);
        }
        let new_entries = page_set_at(&self.pages[pi].entries, idx, Entry::Usable { start, pages });
        let new_page = DescPage { entries: new_entries };
        proof {
            let oldp = self.pages@[pi as int];
            let u = used_of(oldp);
            assert forall|j: int| 0 <= j < u implies e_usable(#[trigger] new_page.entries@[j]) by {
                lemma_first_empty(oldp.entries@, 0);
            }
            assert forall|j: int| u <= j < ENTRIES_LEN implies !e_usable(
                #[trigger] new_page.entries@[j],
            ) by {}
            lemma_first_empty_unique(new_page.entries@, u);
            assert(page_wf(new_page));
            assert(pruns(new_page) =~= pruns(oldp).update(idx as int, (start, pages)));
        }
        self.pages.set(pi, new_page);
        proof {
            lemma_runs_split(self.pages@, pi as int);
            assert(self.pages@.take(pi as int) =~= old(self).pages@.take(pi as int));
            assert(self.pages@.skip(pi as int + 1) =~= old(self).pages@.skip(pi as int + 1));
            let a = runs_of(old(self).pages@.take(pi as int));
            let b = pruns(old(self).pages@[pi as int]);
            let c = runs_of(old(self).pages@.skip(pi as int + 1));
            assert(old(self).runs() == a + b + c);
            assert(self.runs() == a + b.update(idx as int, (start, pages)) + c);
            assert(self.runs() =~= old(self).runs().update(a.len() + idx, (start, pages)));
        }
    }

    /// Remove the run in slot `idx` of page `pi`, shifting the following
    /// slots down and pulling the head of the next page into the freed
    /// slot; an empty trailing page is released.
    #[verifier::rlimit(80)]
    fn remove_entry(&mut self, pi: usize, idx: usize) -> (r: Entry)
        requires
            old(self).list_wf(),
            pi < old(self).pages@.len(),
            idx < ENTRIES_LEN,
        ensures
            final(self).list_wf(),
            final(self).pages@.len() <= old(self).pages@.len(),
            final(self).pages@.len() > pi as int,
            final(self).pages@.take(pi as int) == old(self).pages@.take(pi as int),
            forall|k: int|
                (pi as int) < k < final(self).pages@.len() ==> used_of(
                    #[trigger] final(self).pages@[k],
                ) <= used_of(old(self).pages@[k]),
            used_of(final(self).pages@[pi as int]) <= used_of(old(self).pages@[pi as int]),
            used_of(final(self).pages@[pi as int]) >= used_of(old(self).pages@[pi as int]) - 1,
            ({
                let u = used_of(old(self).pages@[pi as int]);
                if (idx as int) < u {
                    r == old(self).pages@[pi as int].entries@[idx as int] && final(self).runs()
                        == old(self).runs().remove(old(self).base_of(pi as int) + idx)
                } else {
                    r == Entry::Empty && final(self).runs() == old(self).runs()
                }
            }),
        decreases old(self).pages@.len() - pi,
    {
        let ghost ps0 = self.pages@;
        proof {
            lemma_runs_split(ps0, pi as int);
            lemma_first_empty(ps0[pi as int].entries@, 0);
        }
        // pull the replacement from the next page first
        let np = self.pages.len();
        let end: Entry = if pi + 1 < np {
            proof {
                lemma_first_empty(ps0[pi as int + 1].entries@, 0);
            }
            self.remove_entry(pi + 1, 0)
        } else {
            Entry::Empty
        };
        let ghost ps1 = self.pages@;
        proof {
            assert(ps1.take(pi as int + 1) == ps0.take(pi as int + 1));
            assert(ps1[pi as int] == ps0[pi as int]) by {
                assert(ps1.take(pi as int + 1)[pi as int] == ps1[pi as int]);
                assert(ps0.take(pi as int + 1)[pi as int] == ps0[pi as int]);
            }
        }
        // shift this page down over the removed slot
        let removed = self.pages[pi].entries[idx];
        let new_entries = page_remove_at(&self.pages[pi].entries, idx, end);
        let new_page = DescPage { entries: new_entries };
        proof {
            let oldp = ps0[pi as int];
            let u = used_of(oldp);
            lemma_first_empty(oldp.entries@, 0);
            if (idx as int) < u {
                if e_usable(end) {
                    // the next page had a head to give, so this page was full
                    assert(u == ENTRIES_LEN);
                    assert forall|j: int| 0 <= j < ENTRIES_LEN implies e_usable(
                        #[trigger] new_page.entries@[j],
                    ) by {
                        if j < idx {
                            assert(new_page.entries@[j] == oldp.entries@[j]);
                            assert(e_usable(oldp.entries@[j]));
                        } else if j < ENTRIES_LEN - 1 {
                            assert(new_page.entries@[j] == oldp.entries@[j + 1]);
                            assert(e_usable(oldp.entries@[j + 1]));
                        }
                    }
                    lemma_first_empty_unique(new_page.entries@, ENTRIES_LEN as int);
                    let rhs = pruns(oldp).remove(idx as int).push((e_start(end), e_pages(end)));
                    assert forall|j: int| 0 <= j < ENTRIES_LEN implies pruns(new_page)[j] == rhs[j]
                        by {
                        if j < idx {
                            assert(new_page.entries@[j] == oldp.entries@[j]);
                        } else if j < ENTRIES_LEN - 1 {
                            assert(new_page.entries@[j] == oldp.entries@[j + 1]);
                        }
                    }
                    assert(pruns(new_page) =~= rhs);
                } else {
                    assert forall|j: int| 0 <= j < u - 1 implies e_usable(
                        #[trigger] new_page.entries@[j],
                    ) by {
                        if j < idx {
                            assert(new_page.entries@[j] == oldp.entries@[j]);
                            assert(e_usable(oldp.entries@[j]));
                        } else {
                            assert(new_page.entries@[j] == oldp.entries@[j + 1]);
                            assert(e_usable(oldp.entries@[j + 1]));
                        }
                    }
                    assert forall|j: int| u - 1 <= j < ENTRIES_LEN implies !e_usable(
                        #[trigger] new_page.entries@[j],
                    ) by {
                        if j < ENTRIES_LEN - 1 {
                            assert(new_page.entries@[j] == oldp.entries@[j + 1]);
                            assert(!e_usable(oldp.entries@[j + 1]));
                        }
                    }
                    lemma_first_empty_unique(new_page.entries@, u - 1);
                    let rhs = pruns(oldp).remove(idx as int);
                    assert forall|j: int| 0 <= j < u - 1 implies pruns(new_page)[j] == rhs[j] by {
                        if j < idx {
                            assert(new_page.entries@[j] == oldp.entries@[j]);
                        } else {
                            assert(new_page.entries@[j] == oldp.entries@[j + 1]);
                        }
                    }
                    assert(pruns(new_page) =~= rhs);
                }
            } else {
                // removing an empty slot shuffles empties only
                assert(!e_usable(end)) by {
                    if e_usable(end) {
                        assert(used_of(ps0[pi as int + 1]) > 0);
                        assert(u < ENTRIES_LEN);
                    }
                }
                assert forall|j: int| 0 <= j < u implies e_usable(
                    #[trigger] new_page.entries@[j],
                ) by {
                    assert(new_page.entries@[j] == oldp.entries@[j]);
                    assert(e_usable(oldp.entries@[j]));
                }
                assert forall|j: int| u <= j < ENTRIES_LEN implies !e_usable(
                    #[trigger] new_page.entries@[j],
                ) by {
                    if j < idx {
                        assert(new_page.entries@[j] == oldp.entries@[j]);
                    } else if j < ENTRIES_LEN - 1 {
                        assert(new_page.entries@[j] == oldp.entries@[j + 1]);
                        assert(!e_usable(oldp.entries@[j + 1]));
                    }
                }
                lemma_first_empty_unique(new_page.entries@, u);
                assert forall|j: int| 0 <= j < u implies pruns(new_page)[j] == pruns(oldp)[j] by {
                    assert(new_page.entries@[j] == oldp.entries@[j]);
                }
                assert(pruns(new_page) =~= pruns(oldp));
            }
        }
        self.pages.set(pi, new_page);
        proof {
            let a = runs_of(ps0.take(pi as int));
            let b = pruns(ps0[pi as int]);
            let c = runs_of(ps0.skip(pi as int + 1));
            let u = used_of(ps0[pi as int]);
            assert(runs_of(ps0) == a + b + c);
            assert(ps1[pi as int] == ps0[pi as int]);
            lemma_runs_split(ps1, pi as int);
            assert(ps1.take(pi as int) =~= ps0.take(pi as int));
            let c1 = runs_of(ps1.skip(pi as int + 1));
            assert(runs_of(ps1) == a + b + c1);
            lemma_runs_split(self.pages@, pi as int);
            assert(self.pages@.take(pi as int) =~= ps1.take(pi as int));
            assert(self.pages@.skip(pi as int + 1) =~= ps1.skip(pi as int + 1));
            assert(self.pages@[pi as int] == new_page);
            assert(runs_of(self.pages@) == a + pruns(new_page) + c1);
            if pi as int + 1 < ps0.len() && used_of(ps0[pi as int + 1]) > 0 {
                // the next page gave up its head run
                let gnext = a.len() + b.len();
                assert(runs_of(ps0.take(pi as int + 1)) =~= a + b) by {
                    lemma_runs_split(ps0.take(pi as int + 1), pi as int);
                    assert(ps0.take(pi as int + 1).take(pi as int) =~= ps0.take(pi as int));
                    assert(ps0.take(pi as int + 1)[pi as int] == ps0[pi as int]);
                    assert(ps0.take(pi as int + 1).skip(pi as int + 1) =~= Seq::<
                        DescPage,
                    >::empty());
                }
                assert(runs_of(ps1) == runs_of(ps0).remove(gnext as int));
                assert((a + b + c).remove(a.len() + b.len() as int) =~= a + b + c.drop_first());
                assert(c1 =~= c.drop_first()) by {
                    assert(forall|j: int|
                        0 <= j < c1.len() ==> (a + b + c1)[a.len() + b.len() + j] == c1[j]);
                    assert(forall|j: int|
                        0 <= j < c.drop_first().len() ==> (a + b + c.drop_first())[a.len()
                            + b.len() + j] == c.drop_first()[j]);
                }
                // the pulled entry is the first run of the next page
                lemma_runs_split(ps0.skip(pi as int + 1), 0);
                assert(ps0.skip(pi as int + 1)[0] == ps0[pi as int + 1]);
                lemma_first_empty(ps0[pi as int + 1].entries@, 0);
                assert(end == ps0[pi as int + 1].entries@[0]);
                assert(e_usable(end));
                assert(c[0] == (e_start(end), e_pages(end))) by {
                    assert(ps0.skip(pi as int + 1).take(0) =~= Seq::<DescPage>::empty());
                    assert(runs_of(ps0.skip(pi as int + 1).take(0)) =~= Seq::<(u64, u64)>::empty());
                    assert(c == runs_of(ps0.skip(pi as int + 1).take(0)) + pruns(
                        ps0[pi as int + 1],
                    ) + runs_of(ps0.skip(pi as int + 1).skip(1)));
                    assert(c[0] == pruns(ps0[pi as int + 1])[0]);
                }
                if (idx as int) < u {
                    assert(pruns(new_page) == b.remove(idx as int).push(
                        (e_start(end), e_pages(end)),
                    ));
                    assert(runs_of(self.pages@) =~= (a + b + c).remove(a.len() + idx));
                } else {
                    // a non-full page is never followed by a used one
                    assert(used_of(ps0[pi as int]) < ENTRIES_LEN);
                    assert(used_of(ps0[pi as int + 1]) == 0);
                    assert(false);
                }
            } else {
                // nothing was pulled: the next page, if any, was empty
                assert(runs_of(ps1) == runs_of(ps0));
                assert(c1 =~= c) by {
                    assert(forall|j: int|
                        0 <= j < c1.len() ==> (a + b + c1)[a.len() + b.len() + j] == c1[j]);
                    assert(forall|j: int|
                        0 <= j < c.len() ==> (a + b + c)[a.len() + b.len() + j] == c[j]);
                }
                assert(!e_usable(end));
                if (idx as int) < u {
                    assert(pruns(new_page) == b.remove(idx as int));
                    assert(runs_of(self.pages@) =~= (a + b + c).remove(a.len() + idx));
                } else {
                    assert(pruns(new_page) == b);
                    assert(runs_of(self.pages@) =~= a + b + c);
                }
            }
        }
        // release the trailing descriptor page once it is empty
        if pi + 1 < self.pages.len() {
            let last = self.pages.len() - 1;
            if last > pi {
                let last_used = self.used(last);
                if last_used == 0 {
                    let ghost before_pop = self.pages@;
                    self.pages.pop();
                    proof {
                        lemma_runs_split(before_pop, before_pop.len() - 1);
                        assert(before_pop.take(before_pop.len() - 1) =~= self.pages@);
                        assert(pruns(before_pop[before_pop.len() - 1]) =~= Seq::<(u64, u64)>::empty());
                        assert(runs_of(before_pop.skip(before_pop.len() as int)) =~= Seq::<(u64, u64)>::empty());
                        assert(runs_of(before_pop) =~= runs_of(self.pages@));
                        assert(self.pages@.take(pi as int) =~= before_pop.take(pi as int));
                    }
                }
            }
        }
        removed
    }

    /// How many slots of the page at `pi` are in use.
    fn used(&self, pi: usize) -> (r: usize)
        requires
            self.pages_wf(),
            pi < self.pages@.len(),
        ensures
            r as int == used_of(self.pages@[pi as int]),
    {
        let es = &self.pages[pi].entries;
        let mut i: usize = 0;
        while i < ENTRIES_LEN
            invariant
                0 <= i <= ENTRIES_LEN,
                es == &self.pages@[pi as int].entries,
                es@.len() == ENTRIES_LEN,
                forall|j: int| 0 <= j < i ==> e_usable(#[trigger] es@[j]),
            decreases ENTRIES_LEN - i,
        {
            match es[i] {
                Entry::Empty => {
                    proof {
                        lemma_first_empty_unique(es@, i as int);
                    }
                    return i;
                },
                Entry::Usable { .. } => {},
            }
            i = i + 1;
        }
        proof {
            lemma_first_empty_unique(es@, ENTRIES_LEN as int);
        }
        ENTRIES_LEN
    }

    /// Insert a run into slot `idx` of page `pi`, shifting the rest up; a
    /// full page pushes its last run into the head of the next page.
    #[verifier::rlimit(80)]
    fn insert_entry(&mut self, pi: usize, idx: usize, entry: Entry)
        requires
            old(self).list_wf(),
            pi < old(self).pages@.len(),
            idx < ENTRIES_LEN,
            e_usable(entry),
            idx as int <= used_of(old(self).pages@[pi as int]),
            used_of(old(self).pages@.last()) < ENTRIES_LEN,
            forall|k: int| 0 <= k < pi ==> used_of(#[trigger] old(self).pages@[k]) == ENTRIES_LEN,
        ensures
            final(self).list_wf(),
            final(self).pages@.len() == old(self).pages@.len(),
            final(self).pages@.take(pi as int) == old(self).pages@.take(pi as int),
            used_of(final(self).pages@.last()) <= used_of(old(self).pages@.last()) + 1,
            final(self).runs() == old(self).runs().insert(
                old(self).base_of(pi as int) + idx,
                (e_start(entry), e_pages(entry)),
            ),
        decreases old(self).pages@.len() - pi,
    {
        let ghost ps0 = self.pages@;
        let np = self.pages.len();
        proof {
            lemma_first_empty(ps0[pi as int].entries@, 0);
            lemma_runs_split(ps0, pi as int);
        }
        let last_e = self.pages[pi].entries[ENTRIES_LEN - 1];
        let overflow = match last_e {
            Entry::Usable { .. } => true,
            Entry::Empty => false,
        };
        if overflow {
            proof {
                // a full page cannot be the last one here
                assert(used_of(ps0[pi as int]) == ENTRIES_LEN) by {
                    if used_of(ps0[pi as int]) < ENTRIES_LEN {
                        assert(!e_usable(ps0[pi as int].entries@[ENTRIES_LEN - 1]));
                    }
                }
                assert(pi as int + 1 < ps0.len()) by {
                    if pi as int + 1 >= ps0.len() {
                        assert(ps0.last() == ps0[pi as int]);
                    }
                }
                lemma_take_split(ps0, pi as int);
            }
            proof {
                assert(pi + 1 < np);
            }
            self.insert_entry(pi + 1, 0, last_e);
        }
        let ghost ps1 = self.pages@;
        proof {
            assert(ps1[pi as int] == ps0[pi as int]) by {
                if overflow {
                    assert(ps1.take(pi as int + 1)[pi as int] == ps1[pi as int]);
                    assert(ps0.take(pi as int + 1)[pi as int] == ps0[pi as int]);
                }
            }
        }
        let new_entries = page_insert_at(&self.pages[pi].entries, idx, entry);
        let new_page = DescPage { entries: new_entries };
        proof {
            let oldp = ps0[pi as int];
            let u = used_of(oldp);
            lemma_first_empty(oldp.entries@, 0);
            let r = (e_start(entry), e_pages(entry));
            if overflow {
                assert forall|j: int| 0 <= j < ENTRIES_LEN implies e_usable(
                    #[trigger] new_page.entries@[j],
                ) by {
                    if j < idx {
                        assert(new_page.entries@[j] == oldp.entries@[j]);
                        assert(e_usable(oldp.entries@[j]));
                    } else if j > idx {
                        assert(new_page.entries@[j] == oldp.entries@[j - 1]);
                        assert(e_usable(oldp.entries@[j - 1]));
                    }
                }
                lemma_first_empty_unique(new_page.entries@, ENTRIES_LEN as int);
                let b = pruns(oldp);
                let rhs = b.insert(idx as int, r);
                assert forall|j: int| 0 <= j < ENTRIES_LEN implies pruns(new_page)[j] == rhs[j]
                    by {
                    if j < idx {
                        assert(new_page.entries@[j] == oldp.entries@[j]);
                    } else if j > idx {
                        assert(new_page.entries@[j] == oldp.entries@[j - 1]);
                    }
                }
                assert(pruns(new_page) =~= rhs.drop_last());
            } else {
                assert(u < ENTRIES_LEN) by {
                    if u == ENTRIES_LEN {
                        assert(e_usable(oldp.entries@[ENTRIES_LEN - 1]));
                    }
                }
                assert forall|j: int| 0 <= j < u + 1 implies e_usable(
                    #[trigger] new_page.entries@[j],
                ) by {
                    if j < idx {
                        assert(new_page.entries@[j] == oldp.entries@[j]);
                        assert(e_usable(oldp.entries@[j]));
                    } else if j > idx {
                        assert(new_page.entries@[j] == oldp.entries@[j - 1]);
                        assert(e_usable(oldp.entries@[j - 1]));
                    }
                }
                assert forall|j: int| u + 1 <= j < ENTRIES_LEN implies !e_usable(
                    #[trigger] new_page.entries@[j],
                ) by {
                    assert(new_page.entries@[j] == oldp.entries@[j - 1]);
                    assert(!e_usable(oldp.entries@[j - 1]));
                }
                lemma_first_empty_unique(new_page.entries@, u + 1);
                let b = pruns(oldp);
                let rhs = b.insert(idx as int, r);
                assert forall|j: int| 0 <= j < u + 1 implies pruns(new_page)[j] == rhs[j] by {
                    if j < idx {
                        assert(new_page.entries@[j] == oldp.entries@[j]);
                    } else if j > idx {
                        assert(new_page.entries@[j] == oldp.entries@[j - 1]);
                    }
                }
                assert(pruns(new_page) =~= rhs);
            }
        }
        self.pages.set(pi, new_page);
        proof {
            let a = runs_of(ps0.take(pi as int));
            let b = pruns(ps0[pi as int]);
            let c = runs_of(ps0.skip(pi as int + 1));
            let r = (e_start(entry), e_pages(entry));
            assert(runs_of(ps0) == a + b + c);
            lemma_runs_split(ps1, pi as int);
            assert(ps1.take(pi as int) =~= ps0.take(pi as int));
            let c1 = runs_of(ps1.skip(pi as int + 1));
            assert(runs_of(ps1) == a + b + c1);
            lemma_runs_split(self.pages@, pi as int);
            assert(self.pages@.take(pi as int) =~= ps1.take(pi as int));
            assert(self.pages@.skip(pi as int + 1) =~= ps1.skip(pi as int + 1));
            assert(self.pages@[pi as int] == new_page);
            assert(runs_of(self.pages@) == a + pruns(new_page) + c1);
            if overflow {
                let lr = (e_start(last_e), e_pages(last_e));
                assert(runs_of(ps1) == runs_of(ps0).insert(a.len() + ENTRIES_LEN, lr));
                assert(b.len() == ENTRIES_LEN);
                assert((a + b + c).insert(a.len() + b.len() as int, lr) =~= a + b + (seq![lr]
                    + c));
                assert(c1 =~= seq![lr] + c) by {
                    assert(forall|j: int|
                        0 <= j < c1.len() ==> (a + b + c1)[a.len() + b.len() + j] == c1[j]);
                    assert(forall|j: int|
                        0 <= j < (seq![lr] + c).len() ==> (a + b + (seq![lr] + c))[a.len()
                            + b.len() + j] == (seq![lr] + c)[j]);
                }
                assert(lr == b[ENTRIES_LEN - 1]);
                assert(runs_of(self.pages@) =~= (a + b + c).insert(a.len() + idx, r));
            } else {
                assert(c1 =~= c) by {
                    assert(forall|j: int|
                        0 <= j < c1.len() ==> (a + b + c1)[a.len() + b.len() + j] == c1[j]);
                    assert(forall|j: int|
                        0 <= j < c.len() ==> (a + b + c)[a.len() + b.len() + j] == c[j]);
                }
                assert(runs_of(self.pages@) =~= (a + b + c).insert(a.len() + idx, r));
            }
            // structural soundness: only this page's fill level grew
            assert(dense(self.pages@)) by {
                assert forall|j: int, k: int|
                    0 <= j < k < self.pages@.len() && used_of(#[trigger] self.pages@[j])
                        < ENTRIES_LEN implies used_of(#[trigger] self.pages@[k]) == 0 by {
                    if j != pi as int && k != pi as int {
                        assert(self.pages@[j] == ps1[j]);
                        assert(self.pages@[k] == ps1[k]);
                    } else if j == pi as int {
                        assert(self.pages@[k] == ps1[k]);
                        if overflow {
                            assert(used_of(self.pages@[pi as int]) == ENTRIES_LEN);
                        } else {
                            assert(used_of(ps1[pi as int]) < ENTRIES_LEN);
                        }
                    } else {
                        // k == pi, j < pi: earlier pages are all full
                        assert(used_of(ps0[j]) == ENTRIES_LEN);
                        assert(self.pages@[j] == ps1[j]);
                        assert(ps1[j] == ps0[j]) by {
                            assert(ps1.take(pi as int)[j] == ps1[j]);
                            assert(ps0.take(pi as int)[j] == ps0[j]);
                        }
                        assert(false);
                    }
                }
            }
        }
    }

    /// Add a run after every other run in the list.
    fn append_entry(&mut self, entry: Entry)
        requires
            old(self).list_wf(),
            old(self).pages@.len() > 0,
            e_usable(entry),
            used_of(old(self).pages@.last()) < ENTRIES_LEN,
        ensures
            final(self).list_wf(),
            final(self).pages@.len() == old(self).pages@.len(),
            final(self).runs() == old(self).runs().push((e_start(entry), e_pages(entry))),
    {
        let ghost ps0 = self.pages@;
        // find the first page with room; later pages hold nothing
        let mut pi: usize = 0;
        loop
            invariant
                ps0 == old(self).pages@,
                e_usable(entry),
                self.list_wf(),
                self.pages@ == ps0,
                pi < ps0.len(),
                forall|k: int| 0 <= k < pi ==> used_of(#[trigger] ps0[k]) == ENTRIES_LEN,
                used_of(ps0.last()) < ENTRIES_LEN,
            decreases ps0.len() - pi,
        {
            let u = self.used(pi);
            if u < ENTRIES_LEN {
                proof {
                    // everything after this page is empty, so this slot is
                    // past the last run
                    assert forall|k: int| (pi as int) < k < ps0.len() implies used_of(
                        #[trigger] ps0[k],
                    ) == 0 by {}
                    lemma_runs_empty_tail(ps0, pi as int + 1);
                    lemma_runs_split(ps0, pi as int);
                    assert(runs_of(ps0.skip(pi as int + 1)) =~= Seq::<(u64, u64)>::empty());
                    assert(self.base_of(pi as int) + u == self.runs().len());
                    assert(self.runs().insert(
                        self.base_of(pi as int) + u,
                        (e_start(entry), e_pages(entry)),
                    ) =~= self.runs().push((e_start(entry), e_pages(entry))));
                }
                self.insert_entry(pi, u, entry);
                return ;
            }
            let np = self.pages.len();
            proof {
                lemma_first_empty(ps0[pi as int].entries@, 0);
                assert(used_of(ps0[pi as int]) == ENTRIES_LEN);
                if pi as int + 1 >= ps0.len() {
                    assert(ps0.last() == ps0[pi as int]);
                    assert(false);
                }
                assert(pi + 1 <= np);
            }
            pi = pi + 1;
        }
    }

    /// Take `pages` pages from the front of the run starting at `start`:
    /// the run shrinks, or disappears when consumed whole.
    #[verifier::rlimit(100)]
    pub fn alloc_pages(&mut self, start: u64, pages: u64)
        requires
            old(self).inv(),
            exists|i: int|
                0 <= i < old(self).runs().len() && (#[trigger] old(self).runs()[i]).0 == start
                    && old(self).runs()[i].1 >= pages,
        ensures
            final(self).inv(),
            old(self).pages@.len() > 0 ==> final(self).pages@.len() > 0,
            forall|i: int|
                0 <= i < old(self).runs().len() && (#[trigger] old(self).runs()[i]).0 == start
                    ==> final(self).runs() == (if old(self).runs()[i].1 == pages {
                    old(self).runs().remove(i)
                } else {
                    old(self).runs().update(
                        i,
                        ((start + pages * PAGE_SIZE) as u64, (old(self).runs()[i].1 - pages) as u64),
                    )
                }),
    {
        let ghost rs = self.runs();
        let ghost ps0 = self.pages@;
        proof {
            assert(self.pages@.skip(0) =~= self.pages@);
        }
        let mut pi: usize = 0;
        loop
            invariant
                old(self).inv(),
                self.pages@ == ps0,
                ps0 == old(self).pages@,
                rs == old(self).runs(),
                exists|i: int|
                    0 <= i < rs.len() && (#[trigger] rs[i]).0 == start && rs[i].1 >= pages,
                0 <= pi <= ps0.len(),
                self.base_of(pi as int) <= rs.len(),
                forall|j: int| 0 <= j < self.base_of(pi as int) ==> (#[trigger] rs[j]).0 != start,
                runs_of(ps0.take(pi as int)).len() == self.base_of(pi as int),
            decreases ps0.len() - pi,
        {
            if pi >= self.pages.len() {
                proof {
                    assert(ps0.take(ps0.len() as int) =~= ps0);
                    let i = choose|i: int|
                        0 <= i < rs.len() && (#[trigger] rs[i]).0 == start && rs[i].1 >= pages;
                    assert(false);
                }
                return ;
            }
            let ghost base = self.base_of(pi as int);
            let used = self.used(pi);
            proof {
                lemma_runs_split(ps0, pi as int);
                lemma_first_empty(ps0[pi as int].entries@, 0);
            }
            let mut idx: usize = 0;
            while idx < used
                invariant
                    old(self).inv(),
                    self.pages@ == ps0,
                    ps0 == old(self).pages@,
                    rs == old(self).runs(),
                    exists|i: int|
                        0 <= i < rs.len() && (#[trigger] rs[i]).0 == start && rs[i].1 >= pages,
                    0 <= pi < ps0.len(),
                    base == self.base_of(pi as int),
                    base + used <= rs.len(),
                    used as int == used_of(ps0[pi as int]),
                    0 <= idx <= used,
                    forall|j: int| 0 <= j < base + idx ==> (#[trigger] rs[j]).0 != start,
                    forall|j: int|
                        0 <= j < used ==> rs[base + j] == (#[trigger] pruns(ps0[pi as int])[j]),
                decreases used - idx,
            {
                proof {
                    assert(page_wf(ps0[pi as int]));
                    lemma_first_empty(ps0[pi as int].entries@, 0);
                }
                let e = self.pages[pi].entries[idx];
                match e {
                    Entry::Usable { start: s, pages: p } => {
                        if s == start {
                            proof {
                                let i0 = choose|i: int|
                                    0 <= i < rs.len() && (#[trigger] rs[i]).0 == start && rs[i].1
                                        >= pages;
                                assert(rs[base + idx] == pruns(ps0[pi as int])[idx as int]);
                                assert(rs[base + idx] == (s, p));
                                lemma_sorted_starts_unique(rs, i0, base + idx);
                                lemma_alloc_effect(rs, base + idx, start, p, pages);
                            }
                            if p == pages {
                                let _ = self.remove_entry(pi, idx);
                            } else {
                                self.set_run(pi, idx, start + pages * PAGE_SIZE, p - pages);
                            }
                            return ;
                        }
                    },
                    Entry::Empty => {
                        proof {
                            assert(false);
                        }
                    },
                }
                proof {
                    assert(rs[base + idx] == pruns(ps0[pi as int])[idx as int]);
                }
                idx = idx + 1;
            }
            proof {
                lemma_take_split(ps0, pi as int);
            }
            pi = pi + 1;
        }
    }

    /// Append a fresh descriptor page: the first one carries the whole
    /// window as its initial run; a later one is carved out of the free
    /// list itself.
    fn add_entry_page(&mut self) -> (r: Result<(), AllocError>)
        requires
            old(self).inv(),
        ensures
            final(self).inv(),
            r is Ok ==> final(self).pages@.len() > 0,
            ({
                if old(self).pages@.len() == 0 {
                    r is Ok && final(self).runs() =~= seq![
                        ((ALLOCATOR_START + PAGE_SIZE) as u64, (0x1_F000_0000u64 - 1) as u64),
                    ]
                } else {
                    match first_fit(old(self).runs(), 1) {
                        None => r is Err && *final(self) == *old(self),
                        Some(i) => r is Ok && final(self).runs() == (if old(self).runs()[i].1 == 1 {
                            old(self).runs().remove(i)
                        } else {
                            old(self).runs().update(
                                i,
                                (
                                    (old(self).runs()[i].0 + PAGE_SIZE) as u64,
                                    (old(self).runs()[i].1 - 1) as u64,
                                ),
                            )
                        }) && used_of(final(self).pages@.last()) == 0,
                    }
                }
            }),
    {
        let mut entries: Vec<Entry> = Vec::new();
        let mut j: usize = 0;
        while j < ENTRIES_LEN
            invariant
                entries@.len() == j,
                j <= ENTRIES_LEN,
                forall|k: int| 0 <= k < j ==> entries@[k] == Entry::Empty,
            decreases ENTRIES_LEN - j,
        {
            entries.push(Entry::Empty);
            j = j + 1;
        }
        if self.pages.len() == 0 {
            // the very first page: its first entry hands out the whole
            // window, minus the page the descriptors themselves occupy
            let first = Entry::Usable {
                start: ALLOCATOR_START + PAGE_SIZE,
                pages: 0x1_F000_0000u64 - 1,
            };
            let entries2 = page_set_at(&entries, 0, first);
            let page = DescPage { entries: entries2 };
            proof {
                assert forall|k: int| 1 <= k < ENTRIES_LEN implies !e_usable(
                    #[trigger] page.entries@[k],
                ) by {
                    assert(page.entries@[k] == entries@[k]);
                }
                lemma_first_empty_unique(page.entries@, 1);
                assert(page_wf(page));
            }
            self.pages.push(page);
            proof {
                assert(self.pages@.len() == 1);
                assert(self.pages@[0] == page);
                assert(page.entries@[0] == first);
                assert(e_usable(first));
                assert(used_of(page) == 1);
                assert(self.pages@.drop_first() =~= Seq::<DescPage>::empty());
                assert(runs_of(self.pages@.drop_first()) =~= Seq::<(u64, u64)>::empty());
                assert(self.runs() =~= pruns(page));
                assert(pruns(page) =~= seq![
                    ((ALLOCATOR_START + PAGE_SIZE) as u64, (0x1_F000_0000u64 - 1) as u64),
                ]);
                assert((ALLOCATOR_START + PAGE_SIZE) as u64 % PAGE_SIZE == 0);
                assert(ALLOCATOR_START as int + PAGE_SIZE as int + (0x1_F000_0000 - 1) * (
                PAGE_SIZE as int) <= ALLOCATOR_END as int + 1);
            }
            return Ok(());
        }
        // carve one page out of the free list for the new descriptors
        let free_page = match self.find_free_pages(1) {
            Some(a) => a,
            None => {
                return Err(AllocError);
            },
        };
        proof {
            lemma_first_fit(self.runs(), 1);
        }
        self.alloc_pages(free_page, 1);
        let page = DescPage { entries };
        proof {
            lemma_first_empty_unique(page.entries@, 0);
            assert(page_wf(page));
        }
        let ghost before = self.pages@;
        self.pages.push(page);
        proof {
            lemma_runs_split(self.pages@, self.pages@.len() - 1);
            assert(self.pages@.take(self.pages@.len() - 1) =~= before);
            assert(self.pages@.skip(self.pages@.len() as int) =~= Seq::<DescPage>::empty());
            assert(pruns(page) =~= Seq::<(u64, u64)>::empty());
            assert(self.runs() =~= runs_of(before));
            assert(self.pages@.last() == page);
        }
        Ok(())
    }

    /// Merge the run at slot `idx` of page `pi` with the run that follows
    /// it (in this page, or heading the next one).
    #[verifier::rlimit(100)]
    fn merge_at(
        &mut self,
        pi: usize,
        idx: usize,
        cross: bool,
        r1s: u64,
        r1p: u64,
        r2p: u64,
        Ghost(g): Ghost<int>,
    )
        requires
            old(self).list_wf(),
            runs_sorted_le(old(self).runs()),
            pi < old(self).pages@.len(),
            idx < ENTRIES_LEN,
            (idx as int) < used_of(old(self).pages@[pi as int]),
            g == old(self).base_of(pi as int) + idx,
            0 <= g,
            g + 1 < old(self).runs().len(),
            old(self).runs()[g] == (r1s, r1p),
            old(self).runs()[g + 1].1 == r2p,
            r1p as int + r2p as int <= 0x2_0000_0000,
            !cross ==> (idx as int) + 1 < used_of(old(self).pages@[pi as int]),
            cross ==> (idx as int) + 1 == used_of(old(self).pages@[pi as int]) && pi as int + 1
                < old(self).pages@.len() && used_of(old(self).pages@[pi as int + 1]) > 0,
        ensures
            final(self).list_wf(),
            final(self).runs() == old(self).runs().update(g, (r1s, (r1p + r2p) as u64)).remove(
                g + 1,
            ),
            used_of(final(self).pages@[pi as int]) >= idx as int,
            final(self).pages@.len() <= old(self).pages@.len(),
            final(self).pages@.len() > pi as int,
            final(self).pages@.take(pi as int) == old(self).pages@.take(pi as int),
            final(self).base_of(pi as int) == old(self).base_of(pi as int),
    {
        let ghost ps = self.pages@;
        let ghost rs = self.runs();
        proof {
            lemma_runs_split(ps, pi as int);
            lemma_first_empty(ps[pi as int].entries@, 0);
        }
        self.set_run(pi, idx, r1s, r1p + r2p);
        let ghost rs2 = self.runs();
        proof {
            assert(rs2 == rs.update(g, (r1s, (r1p + r2p) as u64)));
            assert(self.pages@.take(pi as int) =~= ps.take(pi as int));
            assert(self.base_of(pi as int) == g - idx);
            if cross {
                lemma_runs_split(self.pages@, pi as int);
                lemma_take_split(self.pages@, pi as int);
                assert(self.base_of(pi as int + 1) == g + 1);
            }
        }
        let ghost mid = *self;
        let np = self.pages.len();
        if cross {
            let _ = self.remove_entry(pi + 1, 0);
            proof {
                assert(self.pages@[pi as int] == mid.pages@[pi as int]) by {
                    assert(self.pages@.take(pi as int + 1)[pi as int] == self.pages@[pi as int]);
                    assert(mid.pages@.take(pi as int + 1)[pi as int] == mid.pages@[pi as int]);
                }
            }
        } else {
            let _ = self.remove_entry(pi, idx + 1);
        }
        proof {
            assert(self.runs() == rs2.remove(g + 1));
            assert(self.pages@.take(pi as int) =~= ps.take(pi as int));
        }
    }

    /// Merge every pair of touching runs, walking the whole list; the
    /// result is coalesced, and covers exactly the same pages.
    #[verifier::rlimit(100)]
    fn squash_entries(&mut self)
        requires
            old(self).list_wf(),
            runs_sorted_le(old(self).runs()),
        ensures
            final(self).list_wf(),
            runs_wf(final(self).runs()),
            old(self).pages@.len() > 0 ==> final(self).pages@.len() > 0,
            forall|a: int| covers(final(self).runs(), a) == covers(old(self).runs(), a),
            runs_wf(old(self).runs()) ==> *final(self) == *old(self),
    {
        let mut pi: usize = 0;
        let mut idx: usize = 0;
        loop
            invariant
                old(self).pages@.len() > 0 ==> self.pages@.len() > 0,
                runs_wf(old(self).runs()) ==> *self == *old(self),
                self.list_wf(),
                runs_sorted_le(self.runs()),
                forall|a: int| covers(self.runs(), a) == covers(old(self).runs(), a),
                0 <= pi <= self.pages@.len(),
                pi < self.pages@.len() ==> idx as int <= used_of(self.pages@[pi as int]),
                pi == self.pages@.len() ==> idx == 0,
                self.base_of(pi as int) + idx <= self.runs().len(),
                forall|k: int|
                    0 <= k < self.base_of(pi as int) + idx && k + 1 < self.runs().len()
                        ==> run_end(#[trigger] self.runs()[k]) < self.runs()[k + 1].0,
            decreases self.runs().len(), self.pages@.len() - pi, ENTRIES_LEN + 1 - idx,
        {
            let ghost rs = self.runs();
            let ghost ps = self.pages@;
            if pi >= self.pages.len() {
                proof {
                    assert(ps.take(ps.len() as int) =~= ps);
                    assert(self.base_of(pi as int) == rs.len());
                }
                return ;
            }
            let ghost g = self.base_of(pi as int) + idx;
            let u = self.used(pi);
            proof {
                lemma_runs_split(ps, pi as int);
                lemma_first_empty(ps[pi as int].entries@, 0);
                lemma_take_split(ps, pi as int);
            }
            if idx >= u {
                // page exhausted; move to the next
                pi = pi + 1;
                idx = 0;
                continue ;
            }
            let (r1s, r1p) = match self.pages[pi].entries[idx] {
                Entry::Usable { start, pages } => (start, pages),
                Entry::Empty => {
                    proof {
                        assert(false);
                    }
                    (0, 0)
                },
            };
            proof {
                assert(rs[g] == pruns(ps[pi as int])[idx as int]);
                assert(rs[g] == (r1s, r1p));
            }
            // locate the run that follows, if there is one
            let cross = idx + 1 >= u;
            if cross {
                let more = if pi + 1 < self.pages.len() {
                    self.used(pi + 1) > 0
                } else {
                    false
                };
                if !more {
                    // this is the last run of the list
                    proof {
                        assert forall|k: int| (pi as int) + 1 <= k < ps.len() implies used_of(
                            #[trigger] ps[k],
                        ) == 0 by {}
                        lemma_runs_empty_tail(ps, pi as int + 1);
                        assert(g == rs.len() - 1);
                    }
                    return ;
                }
            }
            let (r2s, r2p) = if !cross {
                match self.pages[pi].entries[idx + 1] {
                    Entry::Usable { start, pages } => (start, pages),
                    Entry::Empty => {
                        proof {
                            assert(false);
                        }
                        (0, 0)
                    },
                }
            } else {
                match self.pages[pi + 1].entries[0] {
                    Entry::Usable { start, pages } => (start, pages),
                    Entry::Empty => {
                        proof {
                            lemma_first_empty(ps[pi as int + 1].entries@, 0);
                            assert(false);
                        }
                        (0, 0)
                    },
                }
            };
            proof {
                if !cross {
                    assert(rs[g + 1] == pruns(ps[pi as int])[idx as int + 1]);
                } else {
                    // the head of the next page is the following run
                    lemma_runs_split(ps.skip(pi as int + 1), 0);
                    assert(ps.skip(pi as int + 1)[0] == ps[pi as int + 1]);
                    assert(ps.skip(pi as int + 1).take(0) =~= Seq::<DescPage>::empty());
                    lemma_first_empty(ps[pi as int + 1].entries@, 0);
                    assert(runs_of(ps.skip(pi as int + 1))[0] == pruns(ps[pi as int + 1])[0]);
                    assert(g + 1 == self.base_of(pi as int) + used_of(ps[pi as int]));
                    assert(rs[g + 1] == pruns(ps[pi as int + 1])[0]);
                }
                assert(rs[g + 1] == (r2s, r2p));
                assert(g + 1 < rs.len());
            }
            if r1s + r1p * PAGE_SIZE == r2s {
                // touching runs: merge them and re-check this position
                proof {
                    lemma_merge_effect(rs, g);
                    if runs_wf(old(self).runs()) {
                        // a coalesced list has no touching pair to find
                        lemma_pair_lt(rs, g);
                        assert(false);
                    }
                }
                self.merge_at(pi, idx, cross, r1s, r1p, r2p, Ghost(g));
                proof {
                    lemma_merge_covers(rs, g);
                    assert forall|a: int| covers(self.runs(), a) == covers(
                        old(self).runs(),
                        a,
                    ) by {
                        assert(covers(self.runs(), a) == covers(rs, a));
                    }
                    assert forall|k: int|
                        0 <= k < self.base_of(pi as int) + idx && k + 1 < self.runs().len()
                            implies run_end(#[trigger] self.runs()[k]) < self.runs()[k + 1].0 by {
                        assert(self.runs()[k] == rs[k]);
                        if k + 1 < g {
                            assert(self.runs()[k + 1] == rs[k + 1]);
                        } else {
                            assert(k + 1 == g);
                            assert(self.runs()[g] == (r1s, (r1p + r2p) as u64));
                        }
                    }
                }
            } else {
                // a real gap separates this run from the next
                proof {
                    assert(run_end(rs[g]) < rs[g + 1].0) by {
                        assert(run_end(rs[g]) <= rs[g + 1].0);
                        assert(run_end(rs[g]) != rs[g + 1].0);
                    }
                }
                idx = idx + 1;
            }
        }
    }

    /// Make room for one more descriptor entry by adding a page, carved
    /// out of the free list itself.
    fn provision_room(&mut self, Ghost(start): Ghost<u64>, Ghost(pages): Ghost<u64>) -> (r:
        Result<(), AllocError>)
        requires
            old(self).inv(),
            old(self).pages@.len() > 0,
            forall|i: int|
                0 <= i < old(self).runs().len() ==> (run_end(#[trigger] old(self).runs()[i])
                    <= start as int || start as int + pages as int * (PAGE_SIZE as int) <= old(
                    self,
                ).runs()[i].0 as int),
        ensures
            final(self).inv(),
            final(self).pages@.len() > 0,
            ({
                match r {
                    Err(_) => *final(self) == *old(self) && first_fit(old(self).runs(), 1)
                        is None,
                    Ok(_) => {
                        let i = first_fit(old(self).runs(), 1)->0;
                        let d = old(self).runs()[i].0;
                        &&& first_fit(old(self).runs(), 1) is Some
                        &&& used_of(final(self).pages@.last()) < ENTRIES_LEN
                        &&& (forall|a: int|
                            covers(final(self).runs(), a) == (covers(old(self).runs(), a) && !(
                            d as int <= a < d as int + PAGE_SIZE as int)))
                        &&& (forall|j: int|
                            0 <= j < final(self).runs().len() ==> (run_end(
                                #[trigger] final(self).runs()[j],
                            ) <= start as int || start as int + pages as int * (
                            PAGE_SIZE as int) <= final(self).runs()[j].0 as int))
                    },
                }
            }),
    {
        let ghost rs0 = self.runs();
        match self.add_entry_page() {
            Err(e) => Err(e),
            Ok(_) => {
                proof {
                    lemma_first_fit(rs0, 1);
                    let i = first_fit(rs0, 1)->0;
                    lemma_alloc_covers_fwd(rs0, i);
                    lemma_alloc_covers_bwd(rs0, i);
                    lemma_provision_disjoint(rs0, i, start, pages);
                }
                Ok(())
            },
        }
    }

    /// Return a run of pages to the free list.  The run is inserted in
    /// start order and the list coalesced; when every descriptor slot is
    /// taken, a fresh descriptor page is first carved out of the free list
    /// itself.
    #[verifier::rlimit(100)]
    #[verifier::spinoff_prover]
    pub fn dealloc_pages(&mut self, start: u64, pages: u64) -> (r: Result<(), AllocError>)
        requires
            old(self).inv(),
            old(self).pages@.len() > 0,
            pages >= 1,
            start % PAGE_SIZE == 0,
            ALLOCATOR_START <= start,
            start as int + pages as int * (PAGE_SIZE as int) <= ALLOCATOR_END as int + 1,
            forall|i: int|
                0 <= i < old(self).runs().len() ==> (run_end(#[trigger] old(self).runs()[i])
                    <= start as int || start as int + pages as int * (PAGE_SIZE as int) <= old(
                    self,
                ).runs()[i].0 as int),
        ensures
            final(self).inv(),
            final(self).pages@.len() > 0,
            ({
                let rs0 = old(self).runs();
                let e = start as int + pages as int * (PAGE_SIZE as int);
                if used_of(old(self).pages@.last()) < ENTRIES_LEN {
                    r is Ok && (forall|a: int|
                        covers(final(self).runs(), a) == (covers(rs0, a) || (start as int <= a
                            < e)))
                } else {
                    match first_fit(rs0, 1) {
                        None => r is Err && *final(self) == *old(self),
                        Some(i) => r is Ok && (forall|a: int|
                            covers(final(self).runs(), a) == ((covers(rs0, a) && !(
                            rs0[i].0 as int <= a < rs0[i].0 as int + PAGE_SIZE as int)) || (
                            start as int <= a < e))),
                    }
                }
            }),
    {
        let ghost rs0 = self.runs();
        let lastpi = self.pages.len() - 1;
        let lu = self.used(lastpi);
        proof {
            assert(self.pages@.last() == self.pages@[lastpi as int]);
            lemma_first_empty(self.pages@[lastpi as int].entries@, 0);
        }
        if lu == ENTRIES_LEN {
            // provision a fresh descriptor page before inserting
            match self.provision_room(Ghost(start), Ghost(pages)) {
                Err(e) => {
                    return Err(e);
                },
                Ok(_) => {},
            }
        }
        let ghost rs1 = self.runs();
        self.insert_and_squash(start, pages);
        proof {
            let e = start as int + pages as int * (PAGE_SIZE as int);
            if lu == ENTRIES_LEN {
                let i = first_fit(rs0, 1)->0;
                let d = rs0[i].0;
                assert forall|a: int| covers(self.runs(), a) == ((covers(rs0, a) && !(
                d as int <= a < d as int + PAGE_SIZE as int)) || (start as int <= a < e)) by {
                    assert(covers(self.runs(), a) == (covers(rs1, a) || (start as int <= a
                        < e)));
                    assert(covers(rs1, a) == (covers(rs0, a) && !(d as int <= a < d as int
                        + PAGE_SIZE as int)));
                }
            } else {
                assert forall|a: int| covers(self.runs(), a) == (covers(rs0, a) || (
                start as int <= a < e)) by {
                    assert(covers(self.runs(), a) == (covers(rs1, a) || (start as int <= a
                        < e)));
                }
            }
        }
        Ok(())
    }

    /// Insert a freed run and coalesce: afterwards the list covers the old
    /// pages plus exactly the freed range.
    fn insert_and_squash(&mut self, start: u64, pages: u64)
        requires
            old(self).inv(),
            old(self).pages@.len() > 0,
            used_of(old(self).pages@.last()) < ENTRIES_LEN,
            pages >= 1,
            start % PAGE_SIZE == 0,
            ALLOCATOR_START <= start,
            start as int + pages as int * (PAGE_SIZE as int) <= ALLOCATOR_END as int + 1,
            forall|i: int|
                0 <= i < old(self).runs().len() ==> (run_end(#[trigger] old(self).runs()[i])
                    <= start as int || start as int + pages as int * (PAGE_SIZE as int) <= old(
                    self,
                ).runs()[i].0 as int),
        ensures
            final(self).inv(),
            final(self).pages@.len() > 0,
            forall|a: int|
                covers(final(self).runs(), a) == (covers(old(self).runs(), a) || (start as int
                    <= a < start as int + pages as int * (PAGE_SIZE as int))),
    {
        let ghost rs1 = self.runs();
        self.insert_run_sorted(start, pages);
        proof {
            lemma_insert_pos(rs1, start);
            lemma_insert_covers(rs1, spec_insert_pos(rs1, start), (start, pages));
        }
        let ghost rs2 = self.runs();
        proof {
            assert(rs2 == rs1.insert(spec_insert_pos(rs1, start), (start, pages)));
            assert(run_end((start, pages)) == start as int + pages as int * (PAGE_SIZE as int));
        }
        self.squash_entries();
        proof {
            let e = start as int + pages as int * (PAGE_SIZE as int);
            assert forall|a: int| covers(self.runs(), a) == (covers(rs1, a) || (start as int <= a
                < e)) by {
                assert(covers(self.runs(), a) == covers(rs2, a));
                assert(covers(rs2, a) == (covers(rs1, a) || ((start, pages).0 <= a < run_end(
                    (start, pages),
                ))));
            }
        }
    }

    /// Insert a run at its place in start order, leaving the list sorted;
    /// neighbours may touch until the next coalescing pass.
    fn insert_run_sorted(&mut self, start: u64, pages: u64)
        requires
            old(self).list_wf(),
            runs_wf(old(self).runs()),
            old(self).pages@.len() > 0,
            used_of(old(self).pages@.last()) < ENTRIES_LEN,
            pages >= 1,
            start % PAGE_SIZE == 0,
            ALLOCATOR_START <= start,
            start as int + pages as int * (PAGE_SIZE as int) <= ALLOCATOR_END as int + 1,
            forall|i: int|
                0 <= i < old(self).runs().len() ==> (run_end(#[trigger] old(self).runs()[i])
                    <= start as int || start as int + pages as int * (PAGE_SIZE as int) <= old(
                    self,
                ).runs()[i].0 as int),
        ensures
            final(self).list_wf(),
            runs_sorted_le(final(self).runs()),
            final(self).pages@.len() == old(self).pages@.len(),
            final(self).runs() == old(self).runs().insert(
                spec_insert_pos(old(self).runs(), start),
                (start, pages),
            ),
    {
        let ghost rs = self.runs();
        proof {
            lemma_insert_pos(rs, start);
            lemma_insert_sorted(rs, start, pages);
        }
        match self.find_insert_slot(start) {
            Some((pi, idx)) => {
                self.insert_run_at(pi, idx, start, pages);
            },
            None => {
                proof {
                    assert(rs.insert(rs.len() as int, (start, pages)) =~= rs.push(
                        (start, pages),
                    ));
                }
                self.append_entry(Entry::Usable { start, pages });
            },
        }
    }

    /// Insert a fresh run into a found slot.
    fn insert_run_at(&mut self, pi: usize, idx: usize, start: u64, pages: u64)
        requires
            old(self).list_wf(),
            old(self).pages@.len() > 0,
            used_of(old(self).pages@.last()) < ENTRIES_LEN,
            (pi as int) < old(self).pages@.len(),
            idx < ENTRIES_LEN,
            (idx as int) < used_of(old(self).pages@[pi as int]),
            old(self).base_of(pi as int) + idx == spec_insert_pos(old(self).runs(), start),
        ensures
            final(self).list_wf(),
            final(self).pages@.len() == old(self).pages@.len(),
            final(self).runs() == old(self).runs().insert(
                spec_insert_pos(old(self).runs(), start),
                (start, pages),
            ),
    {
        proof {
            assert forall|k: int| 0 <= k < pi as int implies used_of(
                #[trigger] self.pages@[k],
            ) == ENTRIES_LEN by {
                lemma_first_empty(self.pages@[k].entries@, 0);
                if used_of(self.pages@[k]) < ENTRIES_LEN {
                    assert(used_of(self.pages@[pi as int]) == 0);
                    assert(false);
                }
            }
        }
        self.insert_entry(pi, idx, Entry::Usable { start, pages });
    }

    /// Find the slot whose run is the first to start at or above `start`.
    fn find_insert_slot(&self, start: u64) -> (r: Option<(usize, usize)>)
        requires
            self.list_wf(),
        ensures
            ({
                let g = spec_insert_pos(self.runs(), start);
                match r {
                    Some((pi, idx)) => {
                        &&& (pi as int) < self.pages@.len()
                        &&& (idx as int) < used_of(self.pages@[pi as int])
                        &&& idx < ENTRIES_LEN
                        &&& g == self.base_of(pi as int) + idx
                        &&& g < self.runs().len()
                    },
                    None => g == self.runs().len() as int,
                }
            }),
    {
        let ghost rs = self.runs();
        let ghost ps0 = self.pages@;
        let ghost gpos = spec_insert_pos(rs, start);
        proof {
            lemma_insert_pos(rs, start);
            assert(self.pages@.skip(0) =~= self.pages@);
        }
        let mut pi: usize = 0;
        while pi < self.pages.len()
            invariant
                self.list_wf(),
                self.pages@ == ps0,
                rs == self.runs(),
                gpos == spec_insert_pos(rs, start),
                0 <= pi <= ps0.len(),
                self.base_of(pi as int) <= gpos,
            decreases ps0.len() - pi,
        {
            let ghost base = self.base_of(pi as int);
            let used = self.used(pi);
            proof {
                lemma_runs_split(ps0, pi as int);
                lemma_first_empty(ps0[pi as int].entries@, 0);
                lemma_take_split(ps0, pi as int);
            }
            let mut idx: usize = 0;
            while idx < used
                invariant
                    self.list_wf(),
                    self.pages@ == ps0,
                    rs == self.runs(),
                    gpos == spec_insert_pos(rs, start),
                    0 <= pi < ps0.len(),
                    base == self.base_of(pi as int),
                    base + used <= rs.len(),
                    used as int == used_of(ps0[pi as int]),
                    0 <= idx <= used,
                    base + idx <= gpos,
                    forall|j: int|
                        0 <= j < used ==> rs[base + j] == (#[trigger] pruns(ps0[pi as int])[j]),
                decreases used - idx,
            {
                proof {
                    assert(page_wf(ps0[pi as int]));
                    lemma_first_empty(ps0[pi as int].entries@, 0);
                    assert(rs[base + idx] == pruns(ps0[pi as int])[idx as int]);
                    lemma_insert_pos(rs, start);
                }
                let e = self.pages[pi].entries[idx];
                match e {
                    Entry::Usable { start: s, pages: _p } => {
                        if s >= start {
                            proof {
                                if base + idx < gpos {
                                    assert(rs[base + idx].0 < start);
                                }
                            }
                            return Some((pi, idx));
                        }
                        proof {
                            if gpos == base + idx {
                                assert(rs[gpos].0 >= start);
                            }
                        }
                    },
                    Entry::Empty => {
                        proof {
                            assert(false);
                        }
                    },
                }
                idx = idx + 1;
            }
            proof {
                lemma_take_split(ps0, pi as int);
            }
            pi = pi + 1;
        }
        proof {
            assert(ps0.take(ps0.len() as int) =~= ps0);
        }
        None
    }

    /// First-fit search over all runs: the start of the first run with at
    /// least `req_pages` pages.
    pub fn find_free_pages(&self, req_pages: u64) -> (r: Option<u64>)
        requires
            self.pages_wf(),
        ensures
            ({
                match first_fit(self.runs(), req_pages) {
                    Some(i) => r == Some(self.runs()[i].0),
                    None => r is None,
                }
            }),
    {
        proof {
            assert(self.pages@.skip(0) =~= self.pages@);
        }
        let mut pi: usize = 0;
        while pi < self.pages.len()
            invariant
                self.pages_wf(),
                0 <= pi <= self.pages@.len(),
                ({
                    match first_fit(self.runs(), req_pages) {
                        None => first_fit(runs_of(self.pages@.skip(pi as int)), req_pages)
                            is None,
                        Some(i) => (match first_fit(
                            runs_of(self.pages@.skip(pi as int)),
                            req_pages,
                        ) {
                            Some(j) => self.runs()[i] == runs_of(self.pages@.skip(pi as int))[j],
                            None => false,
                        }),
                    }
                }),
            decreases self.pages@.len() - pi,
        {
            let ghost tail = self.pages@.skip(pi as int);
            let used = self.used(pi);
            proof {
                assert(tail[0] == self.pages@[pi as int]);
                assert(tail.drop_first() =~= self.pages@.skip(pi as int + 1));
                lemma_first_empty(self.pages@[pi as int].entries@, 0);
            }
            let es = &self.pages[pi].entries;
            let mut i: usize = 0;
            while i < used
                invariant
                    self.pages_wf(),
                    0 <= pi < self.pages@.len(),
                    0 <= i <= used,
                    used as int == used_of(self.pages@[pi as int]),
                    es == &self.pages@[pi as int].entries,
                    es@.len() == ENTRIES_LEN,
                    tail == self.pages@.skip(pi as int),
                    forall|j: int| 0 <= j < i ==> (#[trigger] pruns(tail[0])[j]).1 < req_pages,
                    ({
                        match first_fit(self.runs(), req_pages) {
                            None => first_fit(runs_of(tail), req_pages) is None,
                            Some(g) => (match first_fit(runs_of(tail), req_pages) {
                                Some(j) => self.runs()[g] == runs_of(tail)[j],
                                None => false,
                            }),
                        }
                    }),
                decreases used - i,
            {
                proof {
                    lemma_first_empty(es@, 0);
                }
                match es[i] {
                    Entry::Usable { start, pages } => {
                        if pages >= req_pages {
                            proof {
                                let rs = runs_of(tail);
                                lemma_runs_split(tail, 0);
                                assert(rs =~= pruns(tail[0]) + runs_of(tail.drop_first()));
                                lemma_first_fit_prefix(pruns(tail[0]), runs_of(tail.drop_first()),
                                    req_pages, i as int);
                            }
                            return Some(start);
                        }
                    },
                    Entry::Empty => {
                        proof {
                            assert(false);
                        }
                    },
                }
                i = i + 1;
            }
            proof {
                let rs = runs_of(tail);
                assert(rs =~= pruns(tail[0]) + runs_of(tail.drop_first()));
                lemma_first_fit_append(pruns(tail[0]), runs_of(tail.drop_first()), req_pages);
            }
            pi = pi + 1;
        }
        proof {
            assert(runs_of(self.pages@.skip(self.pages@.len() as int)).len() == 0);
        }
        None
    }
}

/// The neighbour ordering of a sorted list, one pair at a time.
proof fn lemma_pair_le(rs: Seq<(u64, u64)>, k: int)
    requires
        runs_sorted_le(rs),
        0 <= k < rs.len() - 1,
    ensures
        run_end(rs[k]) <= rs[k + 1].0,
{
}

/// The neighbour separation of a coalesced list, one pair at a time.
proof fn lemma_pair_lt(rs: Seq<(u64, u64)>, k: int)
    requires
        runs_wf(rs),
        0 <= k < rs.len() - 1,
    ensures
        run_end(rs[k]) < rs[k + 1].0,
{
}

/// In a sorted run list, every run ends before the next begins, so any
/// later run starts strictly higher.
proof fn lemma_sorted_mono(rs: Seq<(u64, u64)>, i: int, j: int)
    requires
        runs_sorted_le(rs),
        0 <= i < j < rs.len(),
    ensures
        run_end(rs[i]) <= rs[j].0,
        rs[i].0 < rs[j].0,
    decreases j - i,
{
    assert((rs[i].0 as int) < run_end(rs[i])) by (nonlinear_arith)
        requires
            rs[i].1 >= 1,
            run_end(rs[i]) == rs[i].0 as int + rs[i].1 as int * (PAGE_SIZE as int),
    ;
    if j == i + 1 {
    } else {
        lemma_sorted_mono(rs, i + 1, j);
        assert((rs[i + 1].0 as int) < run_end(rs[i + 1])) by (nonlinear_arith)
            requires
                rs[i + 1].1 >= 1,
                run_end(rs[i + 1]) == rs[i + 1].0 as int + rs[i + 1].1 as int * (PAGE_SIZE as int),
        ;
    }
}

/// Two runs of a sorted list that start at the same address are the same
/// run.
proof fn lemma_sorted_starts_unique(rs: Seq<(u64, u64)>, i: int, j: int)
    requires
        runs_sorted_le(rs),
        0 <= i < rs.len(),
        0 <= j < rs.len(),
        rs[i].0 == rs[j].0,
    ensures
        i == j,
{
    if i < j {
        lemma_sorted_mono(rs, i, j);
    } else if j < i {
        lemma_sorted_mono(rs, j, i);
    }
}

/// Taking pages off the front of run `g` keeps the list well-formed,
/// whichever way the run goes, and no other run starts at the same
/// address.
proof fn lemma_alloc_effect(rs: Seq<(u64, u64)>, g: int, start: u64, p: u64, pages: u64)
    requires
        runs_wf(rs),
        0 <= g < rs.len(),
        rs[g] == (start, p),
        p >= pages,
    ensures
        p == pages ==> runs_wf(rs.remove(g)),
        p > pages ==> runs_wf(
            rs.update(g, ((start + pages * PAGE_SIZE) as u64, (p - pages) as u64)),
        ),
        forall|i: int| 0 <= i < rs.len() && (#[trigger] rs[i]).0 == start ==> i == g,
        start as int + pages as int * (PAGE_SIZE as int) <= ALLOCATOR_END as int + 1,
        pages as int * (PAGE_SIZE as int) >= 0,
{
    if p == pages {
        lemma_alloc_keeps_wf_remove(rs, g);
    } else if pages == 0 {
        assert(rs.update(g, ((start + 0 * PAGE_SIZE) as u64, (p - 0) as u64)) =~= rs);
    } else {
        lemma_alloc_keeps_wf_shrink(rs, g, pages);
    }
    assert forall|i: int| 0 <= i < rs.len() && (#[trigger] rs[i]).0 == start implies i == g by {
        lemma_sorted_starts_unique(rs, i, g);
    }
    assert(pages as int * (PAGE_SIZE as int) <= p as int * (PAGE_SIZE as int) && pages as int * (
    PAGE_SIZE as int) >= 0) by (nonlinear_arith)
        requires
            0 <= pages <= p,
    ;
    assert(run_end(rs[g]) <= ALLOCATOR_END as int + 1);
}

/// Removing a run keeps the list sorted, disjoint and coalesced.
proof fn lemma_alloc_keeps_wf_remove(rs: Seq<(u64, u64)>, i: int)
    requires
        runs_wf(rs),
        0 <= i < rs.len(),
    ensures
        runs_wf(rs.remove(i)),
{
    let r2 = rs.remove(i);
    assert forall|k: int|
        #![trigger r2[k], r2[k + 1]]
        0 <= k < r2.len() - 1 implies run_end(r2[k]) < r2[k + 1].0 by {
        if k < i - 1 {
            assert(r2[k] == rs[k] && r2[k + 1] == rs[k + 1]);
            lemma_pair_lt(rs, k);
        } else if k == i - 1 {
            assert(r2[k] == rs[k] && r2[k + 1] == rs[i + 1]);
            lemma_sorted_mono(rs, k, i + 1);
            assert((rs[i].0 as int) < run_end(rs[i])) by (nonlinear_arith)
                requires
                    rs[i].1 >= 1,
                    run_end(rs[i]) == rs[i].0 as int + rs[i].1 as int * (PAGE_SIZE as int),
            ;
        } else {
            assert(r2[k] == rs[k + 1] && r2[k + 1] == rs[k + 2]);
            lemma_pair_lt(rs, k + 1);
        }
    }
    assert forall|k: int| 0 <= k < r2.len() implies 1 <= (#[trigger] r2[k]).1 && ALLOCATOR_START
        <= r2[k].0 && r2[k].0 % PAGE_SIZE == 0 && run_end(r2[k]) <= ALLOCATOR_END as int + 1 by {
        if k < i {
            assert(r2[k] == rs[k]);
        } else {
            assert(r2[k] == rs[k + 1]);
        }
    }
}

/// Shrinking a run from the front keeps the list sorted, disjoint and
/// coalesced.
proof fn lemma_alloc_keeps_wf_shrink(rs: Seq<(u64, u64)>, i: int, n: u64)
    requires
        runs_wf(rs),
        0 <= i < rs.len(),
        0 < n < rs[i].1,
    ensures
        runs_wf(
            rs.update(i, ((rs[i].0 + n * PAGE_SIZE) as u64, (rs[i].1 - n) as u64)),
        ),
{
    let old_r = rs[i];
    let nr = ((rs[i].0 + n * PAGE_SIZE) as u64, (rs[i].1 - n) as u64);
    let r2 = rs.update(i, nr);
    assert(old_r.0 as int + (n as int) * (PAGE_SIZE as int) <= run_end(old_r)) by (nonlinear_arith)
        requires
            n <= old_r.1,
            run_end(old_r) == old_r.0 as int + old_r.1 as int * (PAGE_SIZE as int),
    ;
    assert((n as int) * (PAGE_SIZE as int) >= PAGE_SIZE as int) by (nonlinear_arith)
        requires
            n >= 1,
    ;
    assert(run_end(nr) == run_end(old_r)) by (nonlinear_arith)
        requires
            nr.0 as int == old_r.0 as int + n as int * (PAGE_SIZE as int),
            nr.1 as int == old_r.1 as int - n as int,
            run_end(nr) == nr.0 as int + nr.1 as int * (PAGE_SIZE as int),
            run_end(old_r) == old_r.0 as int + old_r.1 as int * (PAGE_SIZE as int),
    ;
    assert(nr.0 % PAGE_SIZE == 0) by (nonlinear_arith)
        requires
            old_r.0 % PAGE_SIZE == 0,
            nr.0 as int == old_r.0 as int + n as int * (PAGE_SIZE as int),
            PAGE_SIZE == 4096,
    ;
    assert forall|k: int|
        #![trigger r2[k], r2[k + 1]]
        0 <= k < r2.len() - 1 implies run_end(r2[k]) < r2[k + 1].0 by {
        if k != i && k + 1 != i {
            assert(r2[k] == rs[k] && r2[k + 1] == rs[k + 1]);
        } else if k == i {
            assert(r2[k + 1] == rs[k + 1]);
        } else {
            assert(r2[k] == rs[k]);
        }
    }
    assert forall|k: int| 0 <= k < r2.len() implies 1 <= (#[trigger] r2[k]).1 && ALLOCATOR_START
        <= r2[k].0 && r2[k].0 % PAGE_SIZE == 0 && run_end(r2[k]) <= ALLOCATOR_END as int + 1 by {
        if k != i {
            assert(r2[k] == rs[k]);
        }
    }
}

/// Merging two touching runs stays within bounds and keeps the list
/// sorted.
proof fn lemma_merge_effect(rs: Seq<(u64, u64)>, g: int)
    requires
        runs_sorted_le(rs),
        0 <= g,
        g + 1 < rs.len(),
        run_end(rs[g]) == rs[g + 1].0,
    ensures
        rs[g].1 as int + rs[g + 1].1 as int <= 0x2_0000_0000,
        runs_sorted_le(rs.update(g, (rs[g].0, (rs[g].1 + rs[g + 1].1) as u64)).remove(g + 1)),
    decreases rs.len(),
{
    let p1 = rs[g].1;
    let p2 = rs[g + 1].1;
    let m = (rs[g].0, (p1 + p2) as u64);
    assert(p1 as int + p2 as int <= 0x2_0000_0000) by (nonlinear_arith)
        requires
            rs[g].0 as int + p1 as int * (PAGE_SIZE as int) == rs[g + 1].0 as int,
            rs[g + 1].0 as int + p2 as int * (PAGE_SIZE as int) <= ALLOCATOR_END as int + 1,
            ALLOCATOR_START <= rs[g].0,
            ALLOCATOR_END as int + 1 - ALLOCATOR_START as int <= 0x2_0000_0000 * 4096,
            PAGE_SIZE == 4096,
    ;
    assert(run_end(m) == run_end(rs[g + 1])) by (nonlinear_arith)
        requires
            m.0 == rs[g].0,
            m.1 as int == p1 as int + p2 as int,
            rs[g].0 as int + p1 as int * (PAGE_SIZE as int) == rs[g + 1].0 as int,
            run_end(m) == m.0 as int + m.1 as int * (PAGE_SIZE as int),
            run_end(rs[g + 1]) == rs[g + 1].0 as int + p2 as int * (PAGE_SIZE as int),
    ;
    let r2 = rs.update(g, m).remove(g + 1);
    assert forall|k: int| 0 <= k < r2.len() implies 1 <= (#[trigger] r2[k]).1 && ALLOCATOR_START
        <= r2[k].0 && r2[k].0 % PAGE_SIZE == 0 && run_end(r2[k]) <= ALLOCATOR_END as int + 1 by {
        if k < g {
            assert(r2[k] == rs[k]);
        } else if k == g {
            assert(r2[k] == m);
        } else {
            assert(r2[k] == rs[k + 1]);
        }
    }
    assert forall|k: int|
        #![trigger r2[k], r2[k + 1]]
        0 <= k < r2.len() - 1 implies run_end(r2[k]) <= r2[k + 1].0 by {
        if 0 <= k < rs.len() - 1 {
            lemma_pair_le(rs, k);
        }
        if 0 <= k + 1 < rs.len() - 1 {
            lemma_pair_le(rs, k + 1);
        }
        if 0 <= k - 1 < rs.len() - 1 {
            lemma_pair_le(rs, k - 1);
        }
        if k + 1 < g {
            assert(r2[k] == rs[k] && r2[k + 1] == rs[k + 1]);
        } else if k + 1 == g {
            assert(r2[k] == rs[k] && r2[k + 1] == m);
        } else if k == g {
            assert(r2[k] == m && r2[k + 1] == rs[k + 2]);
        } else {
            assert(r2[k] == rs[k + 1] && r2[k + 1] == rs[k + 2]);
        }
    }
}

/// Merging two touching runs covers exactly the same pages.
#[verifier::rlimit(100)]
proof fn lemma_merge_covers(rs: Seq<(u64, u64)>, g: int)
    requires
        runs_sorted_le(rs),
        0 <= g,
        g + 1 < rs.len(),
        run_end(rs[g]) == rs[g + 1].0,
    ensures
        forall|a: int|
            covers(rs.update(g, (rs[g].0, (rs[g].1 + rs[g + 1].1) as u64)).remove(g + 1), a)
                == covers(rs, a),
{
    let m = (rs[g].0, (rs[g].1 + rs[g + 1].1) as u64);
    let r2 = rs.update(g, m).remove(g + 1);
    assert(run_end(m) == run_end(rs[g + 1])) by (nonlinear_arith)
        requires
            m.0 == rs[g].0,
            m.1 as int == rs[g].1 as int + rs[g + 1].1 as int,
            rs[g].0 as int + rs[g].1 as int * (PAGE_SIZE as int) == rs[g + 1].0 as int,
            run_end(m) == m.0 as int + m.1 as int * (PAGE_SIZE as int),
            run_end(rs[g + 1]) == rs[g + 1].0 as int + rs[g + 1].1 as int * (PAGE_SIZE as int),
    ;
    assert forall|a: int| covers(r2, a) == covers(rs, a) by {
        if covers(rs, a) {
            let i = choose|i: int| 0 <= i < rs.len() && (#[trigger] rs[i]).0 <= a < run_end(rs[i]);
            if i < g {
                assert(r2[i] == rs[i]);
                assert(covers(r2, a));
            } else if i == g || i == g + 1 {
                assert(r2[g] == m);
                assert(m.0 <= a < run_end(m));
                assert(covers(r2, a));
            } else {
                assert(r2[i - 1] == rs[i]);
                assert(covers(r2, a));
            }
        }
        if covers(r2, a) {
            let i = choose|i: int| 0 <= i < r2.len() && (#[trigger] r2[i]).0 <= a < run_end(r2[i]);
            if i < g {
                assert(r2[i] == rs[i]);
                assert(covers(rs, a));
            } else if i == g {
                assert(r2[g] == m);
                if a < run_end(rs[g]) {
                    assert(rs[g].0 <= a < run_end(rs[g]));
                } else {
                    assert(rs[g + 1].0 <= a < run_end(rs[g + 1]));
                }
                assert(covers(rs, a));
            } else {
                assert(r2[i] == rs[i + 1]);
                assert(covers(rs, a));
            }
        }
    }
}

/// Inserting a run covers its pages on top of what was covered before.
proof fn lemma_insert_covers(rs: Seq<(u64, u64)>, g: int, nr: (u64, u64))
    requires
        0 <= g <= rs.len(),
    ensures
        forall|a: int|
            covers(rs.insert(g, nr), a) == (covers(rs, a) || (nr.0 <= a < run_end(nr))),
{
    let r2 = rs.insert(g, nr);
    assert forall|a: int| covers(r2, a) == (covers(rs, a) || (nr.0 <= a < run_end(nr))) by {
        if covers(rs, a) {
            let i = choose|i: int| 0 <= i < rs.len() && (#[trigger] rs[i]).0 <= a < run_end(rs[i]);
            if i < g {
                assert(r2[i] == rs[i]);
            } else {
                assert(r2[i + 1] == rs[i]);
            }
            assert(covers(r2, a));
        }
        if nr.0 <= a < run_end(nr) {
            assert(r2[g] == nr);
            assert(covers(r2, a));
        }
        if covers(r2, a) {
            let i = choose|i: int| 0 <= i < r2.len() && (#[trigger] r2[i]).0 <= a < run_end(r2[i]);
            if i < g {
                assert(r2[i] == rs[i]);
                assert(covers(rs, a));
            } else if i == g {
            } else {
                assert(r2[i] == rs[i - 1]);
                assert(covers(rs, a));
            }
        }
    }
}

/// Where a fresh run belongs in start order: before the first run that
/// starts at or above it.
pub open spec fn spec_insert_pos(rs: Seq<(u64, u64)>, start: u64) -> int
    decreases rs.len(),
{
    if rs.len() == 0 {
        0
    } else if rs[0].0 >= start {
        0
    } else {
        1 + spec_insert_pos(rs.drop_first(), start)
    }
}

proof fn lemma_insert_pos(rs: Seq<(u64, u64)>, start: u64)
    ensures
        0 <= spec_insert_pos(rs, start) <= rs.len(),
        forall|j: int| 0 <= j < spec_insert_pos(rs, start) ==> (#[trigger] rs[j]).0 < start,
        spec_insert_pos(rs, start) < rs.len() ==> rs[spec_insert_pos(rs, start)].0 >= start,
    decreases rs.len(),
{
    if rs.len() == 0 {
    } else if rs[0].0 >= start {
    } else {
        lemma_insert_pos(rs.drop_first(), start);
        assert forall|j: int| 0 <= j < spec_insert_pos(rs, start) implies (#[trigger] rs[j]).0
            < start by {
            if j > 0 {
                assert(rs.drop_first()[j - 1] == rs[j]);
            }
        }
        if spec_insert_pos(rs, start) < rs.len() {
            assert(rs.drop_first()[spec_insert_pos(rs, start) - 1] == rs[spec_insert_pos(
                rs,
                start,
            )]);
        }
    }
}

/// Inserting a disjoint run at its start-order position leaves the list
/// sorted; it may touch its neighbours.
proof fn lemma_insert_sorted(rs: Seq<(u64, u64)>, start: u64, pages: u64)
    requires
        runs_wf(rs),
        pages >= 1,
        start % PAGE_SIZE == 0,
        ALLOCATOR_START <= start,
        start as int + pages as int * (PAGE_SIZE as int) <= ALLOCATOR_END as int + 1,
        forall|i: int|
            0 <= i < rs.len() ==> (run_end(#[trigger] rs[i]) <= start as int || start as int
                + pages as int * (PAGE_SIZE as int) <= rs[i].0 as int),
    ensures
        runs_sorted_le(rs.insert(spec_insert_pos(rs, start), (start, pages))),
{
    lemma_insert_pos(rs, start);
    let g = spec_insert_pos(rs, start);
    let nr = (start, pages);
    let r2 = rs.insert(g, nr);
    assert(run_end(nr) == start as int + pages as int * (PAGE_SIZE as int));
    assert(run_end(nr) > start as int) by (nonlinear_arith)
        requires
            pages >= 1,
            run_end(nr) == start as int + pages as int * (PAGE_SIZE as int),
            PAGE_SIZE == 4096,
    ;
    assert forall|k: int| 0 <= k < r2.len() implies 1 <= (#[trigger] r2[k]).1 && ALLOCATOR_START
        <= r2[k].0 && r2[k].0 % PAGE_SIZE == 0 && run_end(r2[k]) <= ALLOCATOR_END as int + 1 by {
        if k < g {
            assert(r2[k] == rs[k]);
        } else if k > g {
            assert(r2[k] == rs[k - 1]);
        }
    }
    assert forall|k: int|
        #![trigger r2[k], r2[k + 1]]
        0 <= k < r2.len() - 1 implies run_end(r2[k]) <= r2[k + 1].0 by {
        if 0 <= k < rs.len() - 1 {
            lemma_pair_le(rs, k);
        }
        if 0 <= k + 1 < rs.len() - 1 {
            lemma_pair_le(rs, k + 1);
        }
        if 0 <= k - 1 < rs.len() - 1 {
            lemma_pair_le(rs, k - 1);
        }
        if k + 1 < g {
            assert(r2[k] == rs[k] && r2[k + 1] == rs[k + 1]);
        } else if k + 1 == g {
            assert(r2[k] == rs[k] && r2[k + 1] == nr);
            assert(rs[k].0 < start);
            assert((rs[k].0 as int) < run_end(rs[k])) by (nonlinear_arith)
                requires
                    rs[k].1 >= 1,
                    run_end(rs[k]) == rs[k].0 as int + rs[k].1 as int * (PAGE_SIZE as int),
                    PAGE_SIZE == 4096,
            ;
            assert(run_end(rs[k]) <= start as int);
        } else if k == g {
            assert(r2[k] == nr && r2[k + 1] == rs[k]);
            assert(rs[k].0 >= start);
            assert((rs[k].0 as int) < run_end(rs[k])) by (nonlinear_arith)
                requires
                    rs[k].1 >= 1,
                    run_end(rs[k]) == rs[k].0 as int + rs[k].1 as int * (PAGE_SIZE as int),
                    PAGE_SIZE == 4096,
            ;
            assert(run_end(nr) <= rs[k].0 as int);
        } else {
            assert(r2[k] == rs[k - 1] && r2[k + 1] == rs[k]);
        }
    }
}

/// After one page is carved out of run `i`, the remaining runs still
/// avoid any range the old runs avoided.
proof fn lemma_provision_disjoint(rs: Seq<(u64, u64)>, i: int, start: u64, pages: u64)
    requires
        runs_wf(rs),
        0 <= i < rs.len(),
        forall|j: int|
            0 <= j < rs.len() ==> (run_end(#[trigger] rs[j]) <= start as int || start as int
                + pages as int * (PAGE_SIZE as int) <= rs[j].0 as int),
    ensures
        ({
            let r2 = if rs[i].1 == 1 {
                rs.remove(i)
            } else {
                rs.update(i, ((rs[i].0 + PAGE_SIZE) as u64, (rs[i].1 - 1) as u64))
            };
            forall|j: int|
                0 <= j < r2.len() ==> (run_end(#[trigger] r2[j]) <= start as int || start as int
                    + pages as int * (PAGE_SIZE as int) <= r2[j].0 as int)
        }),
{
    let r2 = if rs[i].1 == 1 {
        rs.remove(i)
    } else {
        rs.update(i, ((rs[i].0 + PAGE_SIZE) as u64, (rs[i].1 - 1) as u64))
    };
    assert forall|j: int| 0 <= j < r2.len() implies (run_end(#[trigger] r2[j]) <= start as int
        || start as int + pages as int * (PAGE_SIZE as int) <= r2[j].0 as int) by {
        if rs[i].1 == 1 {
            let oj = if j < i {
                j
            } else {
                j + 1
            };
            assert(r2[j] == rs[oj]);
        } else if j != i {
            assert(r2[j] == rs[j]);
        } else {
            assert(run_end(r2[j]) == run_end(rs[i]) && r2[j].0 >= rs[i].0) by (nonlinear_arith)
                requires
                    r2[j].0 as int == rs[i].0 as int + PAGE_SIZE as int,
                    r2[j].1 as int == rs[i].1 as int - 1,
                    run_end(r2[j]) == r2[j].0 as int + r2[j].1 as int * (PAGE_SIZE as int),
                    run_end(rs[i]) == rs[i].0 as int + rs[i].1 as int * (PAGE_SIZE as int),
                    PAGE_SIZE == 4096,
            ;
        }
    }
}

/// In a well-formed list, at most one run covers any address.
proof fn lemma_covers_unique(rs: Seq<(u64, u64)>, i: int, j: int, a: int)
    requires
        runs_wf(rs),
        0 <= i < rs.len(),
        0 <= j < rs.len(),
        rs[i].0 <= a < run_end(rs[i]),
        rs[j].0 <= a < run_end(rs[j]),
    ensures
        i == j,
{
    if i < j {
        lemma_sorted_mono(rs, i, j);
    } else if j < i {
        lemma_sorted_mono(rs, j, i);
    }
}

/// Carving one page out of the free list: covered addresses only appear.
proof fn lemma_alloc_covers_fwd(rs: Seq<(u64, u64)>, i: int)
    requires
        runs_wf(rs),
        0 <= i < rs.len(),
    ensures
        ({
            let d = rs[i].0;
            let r2 = if rs[i].1 == 1 {
                rs.remove(i)
            } else {
                rs.update(i, ((d + PAGE_SIZE) as u64, (rs[i].1 - 1) as u64))
            };
            forall|a: int|
                covers(r2, a) ==> (covers(rs, a) && !(d as int <= a < d as int
                    + PAGE_SIZE as int))
        }),
{
    let d = rs[i].0;
    let p = rs[i].1;
    let r2 = if p == 1 {
        rs.remove(i)
    } else {
        rs.update(i, ((d + PAGE_SIZE) as u64, (p - 1) as u64))
    };
    assert((d as int) + PAGE_SIZE as int <= run_end(rs[i])) by (nonlinear_arith)
        requires
            p >= 1,
            run_end(rs[i]) == d as int + p as int * (PAGE_SIZE as int),
            PAGE_SIZE == 4096,
    ;
    if p > 1 {
        assert(run_end(r2[i]) == run_end(rs[i])) by (nonlinear_arith)
            requires
                r2[i].0 as int == d as int + PAGE_SIZE as int,
                r2[i].1 as int == p as int - 1,
                run_end(r2[i]) == r2[i].0 as int + r2[i].1 as int * (PAGE_SIZE as int),
                run_end(rs[i]) == d as int + p as int * (PAGE_SIZE as int),
                PAGE_SIZE == 4096,
        ;
    }
    assert forall|a: int| covers(r2, a) implies (covers(rs, a) && !(d as int <= a < d as int
        + PAGE_SIZE as int)) by {
        let j = choose|j: int| 0 <= j < r2.len() && (#[trigger] r2[j]).0 <= a < run_end(r2[j]);
        let oj = if p == 1 {
            if j < i {
                j
            } else {
                j + 1
            }
        } else {
            j
        };
        if p > 1 && j == i {
            assert(rs[i].0 <= a < run_end(rs[i]));
            assert(covers(rs, a));
            assert(a >= d as int + PAGE_SIZE as int);
        } else {
            assert(r2[j] == rs[oj]);
            assert(covers(rs, a));
            if d as int <= a < d as int + PAGE_SIZE as int {
                lemma_covers_unique(rs, oj, i, a);
                assert(false);
            }
        }
    }
}

/// Carving one page out of the free list: nothing else disappears.
proof fn lemma_alloc_covers_bwd(rs: Seq<(u64, u64)>, i: int)
    requires
        runs_wf(rs),
        0 <= i < rs.len(),
    ensures
        ({
            let d = rs[i].0;
            let r2 = if rs[i].1 == 1 {
                rs.remove(i)
            } else {
                rs.update(i, ((d + PAGE_SIZE) as u64, (rs[i].1 - 1) as u64))
            };
            forall|a: int|
                (covers(rs, a) && !(d as int <= a < d as int + PAGE_SIZE as int)) ==> covers(
                    r2,
                    a,
                )
        }),
{
    let d = rs[i].0;
    let p = rs[i].1;
    let r2 = if p == 1 {
        rs.remove(i)
    } else {
        rs.update(i, ((d + PAGE_SIZE) as u64, (p - 1) as u64))
    };
    assert((d as int) + PAGE_SIZE as int <= run_end(rs[i])) by (nonlinear_arith)
        requires
            p >= 1,
            run_end(rs[i]) == d as int + p as int * (PAGE_SIZE as int),
            PAGE_SIZE == 4096,
    ;
    if p > 1 {
        assert(run_end(r2[i]) == run_end(rs[i])) by (nonlinear_arith)
            requires
                r2[i].0 as int == d as int + PAGE_SIZE as int,
                r2[i].1 as int == p as int - 1,
                run_end(r2[i]) == r2[i].0 as int + r2[i].1 as int * (PAGE_SIZE as int),
                run_end(rs[i]) == d as int + p as int * (PAGE_SIZE as int),
                PAGE_SIZE == 4096,
        ;
    }
    assert forall|a: int| (covers(rs, a) && !(d as int <= a < d as int + PAGE_SIZE as int))
        implies covers(r2, a) by {
        let j = choose|j: int| 0 <= j < rs.len() && (#[trigger] rs[j]).0 <= a < run_end(rs[j]);
        if j == i {
            assert(a >= d as int + PAGE_SIZE as int);
            assert(p > 1) by {
                if p == 1 {
                    assert(run_end(rs[i]) == d as int + PAGE_SIZE as int) by (nonlinear_arith)
                        requires
                            rs[i].1 == 1,
                            rs[i].0 == d,
                            run_end(rs[i]) == d as int + rs[i].1 as int * (PAGE_SIZE as int),
                    ;
                }
            }
            assert(r2[i].0 <= a < run_end(r2[i]));
            assert(covers(r2, a));
        } else if p == 1 {
            let nj = if j < i {
                j
            } else {
                j - 1
            };
            assert(r2[nj] == rs[j]);
            assert(covers(r2, a));
        } else {
            assert(r2[j] == rs[j]);
            assert(covers(r2, a));
        }
    }
}

/// A stretch of pages that hold no run contributes no run.
proof fn lemma_runs_empty_tail(ps: Seq<DescPage>, k: int)
    requires
        0 <= k <= ps.len(),
        forall|j: int| k <= j < ps.len() ==> used_of(#[trigger] ps[j]) == 0,
    ensures
        runs_of(ps.skip(k)) == Seq::<(u64, u64)>::empty(),
    decreases ps.len() - k,
{
    if k < ps.len() {
        assert(ps.skip(k)[0] == ps[k]);
        assert(pruns(ps[k]) =~= Seq::<(u64, u64)>::empty());
        assert(ps.skip(k).drop_first() =~= ps.skip(k + 1));
        lemma_runs_empty_tail(ps, k + 1);
        assert(runs_of(ps.skip(k)) =~= Seq::<(u64, u64)>::empty());
    } else {
        assert(ps.skip(k) =~= Seq::<DescPage>::empty());
    }
}

/// Later descriptor pages only hold entries while the earlier ones are
/// full.
pub open spec fn dense(ps: Seq<DescPage>) -> bool {
    forall|j: int, k: int|
        0 <= j < k < ps.len() && used_of(#[trigger] ps[j]) < ENTRIES_LEN ==> used_of(
            #[trigger] ps[k],
        ) == 0
}

/// Copies of a page's entries with the slot at `idx` removed, the rest
/// shifted down, and `end` put in the freed last slot.
fn page_remove_at(entries: &Vec<Entry>, idx: usize, end: Entry) -> (r: Vec<Entry>)
    requires
        entries@.len() == ENTRIES_LEN,
        idx < ENTRIES_LEN,
    ensures
        r@.len() == ENTRIES_LEN,
        forall|j: int| 0 <= j < idx ==> r@[j] == entries@[j],
        forall|j: int| idx <= j < ENTRIES_LEN - 1 ==> r@[j] == entries@[j + 1],
        r@[ENTRIES_LEN - 1] == end,
{
    let mut r: Vec<Entry> = Vec::new();
    let mut j: usize = 0;
    while j < ENTRIES_LEN - 1
        invariant
            entries@.len() == ENTRIES_LEN,
            idx < ENTRIES_LEN,
            r@.len() == j,
            j <= ENTRIES_LEN - 1,
            forall|k: int| 0 <= k < j && k < idx ==> r@[k] == entries@[k],
            forall|k: int| idx <= k < j ==> r@[k] == entries@[k + 1],
        decreases ENTRIES_LEN - j,
    {
        if j < idx {
            r.push(entries[j]);
        } else {
            r.push(entries[j + 1]);
        }
        j = j + 1;
    }
    r.push(end);
    r
}

/// Copies of a page's entries with `e` inserted at `idx`, the rest
/// shifted up, and the old last slot dropped.
fn page_insert_at(entries: &Vec<Entry>, idx: usize, e: Entry) -> (r: Vec<Entry>)
    requires
        entries@.len() == ENTRIES_LEN,
        idx < ENTRIES_LEN,
    ensures
        r@.len() == ENTRIES_LEN,
        forall|j: int| 0 <= j < idx ==> r@[j] == entries@[j],
        r@[idx as int] == e,
        forall|j: int| idx < j < ENTRIES_LEN ==> r@[j] == entries@[j - 1],
{
    let mut r: Vec<Entry> = Vec::new();
    let mut j: usize = 0;
    while j < ENTRIES_LEN
        invariant
            entries@.len() == ENTRIES_LEN,
            idx < ENTRIES_LEN,
            r@.len() == j,
            j <= ENTRIES_LEN,
            forall|k: int| 0 <= k < j && k < idx ==> r@[k] == entries@[k],
            j > idx ==> r@[idx as int] == e,
            forall|k: int| idx < k < j ==> r@[k] == entries@[k - 1],
        decreases ENTRIES_LEN - j,
    {
        if j < idx {
            r.push(entries[j]);
        } else if j == idx {
            r.push(e);
        } else {
            r.push(entries[j - 1]);
        }
        j = j + 1;
    }
    r
}

/// Copies of a page's entries with the slot at `idx` replaced.
fn page_set_at(entries: &Vec<Entry>, idx: usize, e: Entry) -> (r: Vec<Entry>)
    requires
        entries@.len() == ENTRIES_LEN,
        idx < ENTRIES_LEN,
    ensures
        r@ == entries@.update(idx as int, e),
{
    let mut r: Vec<Entry> = Vec::new();
    let mut j: usize = 0;
    while j < ENTRIES_LEN
        invariant
            entries@.len() == ENTRIES_LEN,
            idx < ENTRIES_LEN,
            r@.len() == j,
            j <= ENTRIES_LEN,
            forall|k: int| 0 <= k < j && k != idx ==> r@[k] == entries@[k],
            j > idx ==> r@[idx as int] == e,
        decreases ENTRIES_LEN - j,
    {
        if j == idx {
            r.push(e);
        } else {
            r.push(entries[j]);
        }
        j = j + 1;
    }
    proof {
        assert(r@ =~= entries@.update(idx as int, e));
    }
    r
}

/// When every run of `a` is too small, first fit over `a + b` is first
/// fit over `b`, shifted.
proof fn lemma_first_fit_append(a: Seq<(u64, u64)>, b: Seq<(u64, u64)>, n: u64)
    requires
        forall|j: int| 0 <= j < a.len() ==> (#[trigger] a[j]).1 < n,
    ensures
        ({
            match first_fit(a + b, n) {
                None => first_fit(b, n) is None,
                Some(i) => (match first_fit(b, n) {
                    Some(j) => i == a.len() + j && (a + b)[i] == b[j],
                    None => false,
                }),
            }
        }),
    decreases a.len(),
{
    if a.len() == 0 {
        assert(a + b =~= b);
    } else {
        assert((a + b)[0] == a[0]);
        assert((a + b).drop_first() =~= a.drop_first() + b);
        assert(forall|j: int| 0 <= j < a.drop_first().len() ==> (#[trigger] a.drop_first()[j]).1
            < n) by {
            assert(forall|j: int|
                0 <= j < a.drop_first().len() ==> a.drop_first()[j] == a[j + 1]);
        }
        lemma_first_fit_append(a.drop_first(), b, n);
        match first_fit(a.drop_first() + b, n) {
            None => {},
            Some(i2) => {
                lemma_first_fit(a.drop_first() + b, n);
                assert((a + b)[i2 + 1] == (a.drop_first() + b)[i2]);
            },
        }
    }
}

/// When run `i` of `a` is the first that fits, it is the first fit of
/// `a + b` as well.
proof fn lemma_first_fit_prefix(a: Seq<(u64, u64)>, b: Seq<(u64, u64)>, n: u64, i: int)
    requires
        0 <= i < a.len(),
        a[i].1 >= n,
        forall|j: int| 0 <= j < i ==> (#[trigger] a[j]).1 < n,
    ensures
        first_fit(a + b, n) == Some(i),
        (a + b)[i] == a[i],
{
    lemma_first_fit(a + b, n);
    match first_fit(a + b, n) {
        Some(k) => {
            assert((a + b)[i] == a[i]);
            if k > i {
                assert((a + b)[i].1 < n);
                assert(false);
            }
            assert((a + b)[k] == a[k]);
            if k < i {
                assert(a[k].1 < n);
                assert(false);
            }
        },
        None => {
            assert((a + b)[i] == a[i]);
            assert(false);
        },
    }
}


/// The run the allocator starts from: the whole window, minus the page
/// the first descriptors occupy.
pub open spec fn init_runs() -> Seq<(u64, u64)> {
    seq![((ALLOCATOR_START + PAGE_SIZE) as u64, (0x1_F000_0000u64 - 1) as u64)]
}

/// The characterization of the first fit, for callers outside this
/// module.
pub proof fn lemma_first_fit_pub(rs: Seq<(u64, u64)>, n: u64)
    ensures
        ({
            match first_fit(rs, n) {
                Some(i) => 0 <= i < rs.len() && rs[i].1 >= n && forall|j: int|
                    0 <= j < i ==> (#[trigger] rs[j]).1 < n,
                None => forall|j: int| 0 <= j < rs.len() ==> (#[trigger] rs[j]).1 < n,
            }
        }),
{
    lemma_first_fit(rs, n);
}

/// In a sorted list no two runs start alike, for callers outside this
/// module.
pub proof fn lemma_starts_unique_pub(rs: Seq<(u64, u64)>, i: int, j: int)
    requires
        runs_sorted_le(rs),
        0 <= i < rs.len(),
        0 <= j < rs.len(),
        rs[i].0 == rs[j].0,
    ensures
        i == j,
{
    lemma_sorted_starts_unique(rs, i, j);
}

/// Carving one page only uncovers that page, for callers outside this
/// module.
pub proof fn lemma_alloc_covers_fwd_pub(rs: Seq<(u64, u64)>, i: int, r2: Seq<(u64, u64)>)
    requires
        runs_wf(rs),
        0 <= i < rs.len(),
        r2 == (if rs[i].1 == 1 {
            rs.remove(i)
        } else {
            rs.update(i, ((rs[i].0 + PAGE_SIZE) as u64, (rs[i].1 - 1) as u64))
        }),
    ensures
        forall|a: int|
            covers(r2, a) ==> (covers(rs, a) && !(rs[i].0 as int <= a < rs[i].0 as int
                + PAGE_SIZE as int)),
{
    let d = rs[i].0;
    let p = rs[i].1;
    assert((d as int) + PAGE_SIZE as int <= run_end(rs[i])) by (nonlinear_arith)
        requires
            p >= 1,
            run_end(rs[i]) == d as int + p as int * (PAGE_SIZE as int),
            PAGE_SIZE == 4096,
    ;
    if p > 1 {
        assert(run_end(r2[i]) == run_end(rs[i])) by (nonlinear_arith)
            requires
                r2[i].0 as int == d as int + PAGE_SIZE as int,
                r2[i].1 as int == p as int - 1,
                run_end(r2[i]) == r2[i].0 as int + r2[i].1 as int * (PAGE_SIZE as int),
                run_end(rs[i]) == d as int + p as int * (PAGE_SIZE as int),
                PAGE_SIZE == 4096,
        ;
    }
    assert forall|a: int|
        covers(r2, a) implies (covers(rs, a) && !(d as int <= a < d as int
            + PAGE_SIZE as int)) by {
        let j = choose|j: int| 0 <= j < r2.len() && (#[trigger] r2[j]).0 <= a < run_end(r2[j]);
        let oj = if p == 1 {
            if j < i {
                j
            } else {
                j + 1
            }
        } else {
            j
        };
        if p > 1 && j == i {
            assert(rs[i].0 <= a < run_end(rs[i]));
            assert(covers(rs, a));
            assert(a >= d as int + PAGE_SIZE as int);
        } else {
            assert(r2[j] == rs[oj]);
            assert(covers(rs, a));
            if d as int <= a < d as int + PAGE_SIZE as int {
                lemma_covers_unique(rs, oj, i, a);
                assert(false);
            }
        }
    }
}

/// What a successful or failed allocation does to the free runs: the
/// first run of at least `n` pages provides the pages, shrinking or
/// vanishing; with no fitting run, nothing changes.
pub open spec fn allocate_effect(
    pre: FullPageAllocator,
    post: FullPageAllocator,
    size: u64,
    r: Result<u64, AllocError>,
) -> bool {
    let rs0 = pre.start_runs();
    let n = ((size as int + PAGE_SIZE - 1) / (PAGE_SIZE as int)) as u64;
    match r {
        Ok(a) => (match first_fit(rs0, n) {
            Some(i) => a == rs0[i].0 && ALLOCATOR_START <= a && a % PAGE_SIZE == 0
                && a as int + n as int * (PAGE_SIZE as int) <= ALLOCATOR_END as int + 1 && (
            forall|q: int|
                0 <= q < rs0.len() && (#[trigger] rs0[q]).0 == a ==> post.start_runs()
                    == (if rs0[q].1 == n {
                    rs0.remove(q)
                } else {
                    rs0.update(q, ((a + n * PAGE_SIZE) as u64, (rs0[q].1 - n) as u64))
                })),
            None => false,
        }),
        Err(_) => first_fit(rs0, n) is None && post.start_runs() == rs0,
    }
}

/// Memory allocator that hands out whole pages from the allocator window.
///
/// The free list lives in descriptor pages the allocator carves out of its
/// own window; it initializes itself on first use.  Backing each handed-out
/// page with a physical frame is the hardware's side.
pub struct FullPageAllocator {
    pub inner: Option<FPAInner>,
}

impl FullPageAllocator {
    pub open spec fn inv(self) -> bool {
        match self.inner {
            None => true,
            Some(f) => f.inv() && f.pages@.len() > 0,
        }
    }

    /// The free runs, as they stand or as they would be created.
    pub open spec fn start_runs(self) -> Seq<(u64, u64)> {
        match self.inner {
            None => init_runs(),
            Some(f) => f.runs(),
        }
    }

    pub fn new() -> (r: FullPageAllocator)
        ensures
            r.inv(),
            r.inner is None,
    {
        FullPageAllocator { inner: None }
    }

    /// Allocate `size` bytes of whole pages: the first free run that fits
    /// provides them.
    pub fn allocate(&mut self, size: u64) -> (r: Result<u64, AllocError>)
        requires
            old(self).inv(),
            1 <= size <= 0xFFFF_FFFF_FFFF_EFFF,
        ensures
            final(self).inv(),
            final(self).inner is Some,
            allocate_effect(*old(self), *final(self), size, r),
            old(self).inner is Some && r is Err ==> *final(self) == *old(self),
    {
        let n = (size + (PAGE_SIZE - 1)) / PAGE_SIZE;
        if self.inner.is_none() {
            let mut fresh = FPAInner { pages: Vec::new() };
            let _ = fresh.add_entry_page();
            self.inner = Some(fresh);
        }
        match &mut self.inner {
            Some(f) => {
                let addr = match f.find_free_pages(n) {
                    Some(a) => a,
                    None => {
                        return Err(AllocError);
                    },
                };
                proof {
                    lemma_first_fit(f.runs(), n);
                    let i = first_fit(f.runs(), n)->0;
                    assert((f.runs()[i].0 as int) % (PAGE_SIZE as int) == 0);
                    assert(run_end(f.runs()[i]) <= ALLOCATOR_END as int + 1);
                    assert(n as int * (PAGE_SIZE as int) <= f.runs()[i].1 as int * (
                    PAGE_SIZE as int)) by (nonlinear_arith)
                        requires
                            n <= f.runs()[i].1,
                    ;
                }
                f.alloc_pages(addr, n);
                Ok(addr)
            },
            None => {
                proof {
                    assert(false);
                }
                Err(AllocError)
            },
        }
    }

    /// Return `size` bytes of whole pages starting at `ptr` to the free
    /// list.
    #[verifier::rlimit(100)]
    #[verifier::spinoff_prover]
    pub fn deallocate(&mut self, ptr: u64, size: u64) -> (r: Result<(), AllocError>)
        requires
            old(self).inv(),
            old(self).inner is Some,
            1 <= size <= 0xFFFF_FFFF_FFFF_EFFF,
            ptr % PAGE_SIZE == 0,
            ALLOCATOR_START <= ptr,
            ptr as int + ((size as int + PAGE_SIZE - 1) / (PAGE_SIZE as int)) * (PAGE_SIZE as int)
                <= ALLOCATOR_END as int + 1,
            forall|i: int|
                0 <= i < old(self).start_runs().len() ==> (run_end(
                    #[trigger] old(self).start_runs()[i],
                ) <= ptr as int || ptr as int + ((size as int + PAGE_SIZE - 1) / (PAGE_SIZE as int)) * (
                PAGE_SIZE as int) <= old(self).start_runs()[i].0 as int),
        ensures
            final(self).inv(),
            final(self).inner is Some,
            ({
                let rs0 = old(self).start_runs();
                let lastu = used_of(old(self).inner->0.pages@.last());
                let e = ptr as int + ((size as int + PAGE_SIZE - 1) / (PAGE_SIZE as int)) * (
                PAGE_SIZE as int);
                if lastu < ENTRIES_LEN {
                    r is Ok && (forall|a: int|
                        covers(final(self).start_runs(), a) == (covers(rs0, a) || (ptr as int <= a
                            < e)))
                } else {
                    match first_fit(rs0, 1) {
                        None => r is Err && *final(self) == *old(self),
                        Some(i) => r is Ok && (forall|a: int|
                            covers(final(self).start_runs(), a) == ((covers(rs0, a) && !(
                            rs0[i].0 as int <= a < rs0[i].0 as int + PAGE_SIZE as int)) || (
                            ptr as int <= a < e))),
                    }
                }
            }),
    {
        let n = (size + (PAGE_SIZE - 1)) / PAGE_SIZE;
        match &mut self.inner {
            Some(f) => f.dealloc_pages(ptr, n),
            None => {
                proof {
                    assert(false);
                }
                Err(AllocError)
            },
        }
    }
}

} // verus!
