//! The query dispatcher's fan-out plan: one independent fetch task per
//! (site, page) pair, pages 1 through the configured depth, in site
//! order. The caller launches one task per entry and routes every
//! task's record list to a single collection point; a failed fetch
//! contributes an empty list instead of aborting the search.

use vstd::prelude::*;

use crate::types::Website;

verus! {

/// The page tasks of one site: pages 1 through `depth`.
pub open spec fn site_pages(site: Website, depth: int) -> Seq<(Website, u32)> {
    Seq::new(depth as nat, |i: int| (site, (i + 1) as u32))
}

/// One task per selected site and page.
pub open spec fn dispatch_plan(sites: Seq<Website>, depth: int) -> Seq<(Website, u32)>
    decreases sites.len(),
{
    if sites.len() == 0 {
        Seq::empty()
    } else {
        dispatch_plan(sites.drop_last(), depth) + site_pages(sites.last(), depth)
    }
}

/// The dispatcher launches exactly `sites × depth` tasks.
pub proof fn lemma_dispatch_plan_len(sites: Seq<Website>, depth: int)
    requires
        depth >= 0,
    ensures
        dispatch_plan(sites, depth).len() == sites.len() * depth,
    decreases sites.len(),
{
    if sites.len() > 0 {
        lemma_dispatch_plan_len(sites.drop_last(), depth);
        assert((sites.len() - 1) * depth + depth == sites.len() * depth) by (nonlinear_arith);
    }
}

/// Builds the fan-out plan: one (site, page) task for every selected
/// site and every page from 1 to `depth`, in order.
#[verifier::loop_isolation(false)]
pub fn plan_tasks(sites: &Vec<Website>, depth: u32) -> (r: Vec<(Website, u32)>)
    ensures
        r@ == dispatch_plan(sites@, depth as int),
        r@.len() == sites@.len() * depth,
{
    let mut r: Vec<(Website, u32)> = Vec::new();
    proof {
        assert(sites@.subrange(0, 0) =~= Seq::<Website>::empty());
    }
    let mut s: usize = 0;
    while s < sites.len()
        invariant
            s <= sites@.len(),
            r@ == dispatch_plan(sites@.subrange(0, s as int), depth as int),
        decreases sites@.len() - s,
    {
        let site = sites[s];
        let mut page: u64 = 1;
        while page <= depth as u64
            invariant
                1 <= page <= depth as u64 + 1,
                r@ == dispatch_plan(sites@.subrange(0, s as int), depth as int) + site_pages(
                    site,
                    depth as int,
                ).subrange(0, page - 1),
            decreases depth as u64 + 1 - page,
        {
            r.push((site, page as u32));
            proof {
                assert(site_pages(site, depth as int).subrange(0, page as int)
                    =~= site_pages(site, depth as int).subrange(0, page - 1).push(
                    (site, page as u32),
                ));
                assert(r@ == dispatch_plan(sites@.subrange(0, s as int), depth as int)
                    + site_pages(site, depth as int).subrange(0, page as int));
            }
            page = page + 1;
        }
        proof {
            assert(site_pages(site, depth as int).subrange(0, depth as int) =~= site_pages(
                site,
                depth as int,
            ));
            assert(sites@.subrange(0, s + 1).drop_last() =~= sites@.subrange(0, s as int));
            assert(sites@.subrange(0, s + 1).last() == sites@[s as int]);
        }
        s = s + 1;
    }
    proof {
        assert(sites@.subrange(0, sites@.len() as int) =~= sites@);
        lemma_dispatch_plan_len(sites@, depth as int);
    }
    r
}

} // verus!
