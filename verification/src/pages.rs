//! The page position of the reading view once a chapter's pages are laid out.

use vstd::prelude::*;

verus! {

/// The number of pages shown for a chapter laid out into `ranges` page ranges:
/// at least one, even for a chapter without content.
pub open spec fn page_total(ranges: nat) -> nat {
    if ranges == 0 {
        1
    } else {
        ranges
    }
}

/// The page total and the current page after the pages of a chapter were laid
/// out again into `ranges` page ranges: a current page past the end moves back
/// to the last page, any other stays where it is.
pub fn settle_page(ranges: usize, current_page: usize) -> (r: (usize, usize))
    ensures
        r.0 == page_total(ranges as nat),
        r.1 == if current_page >= r.0 { r.0 - 1 } else { current_page as int },
        r.1 < r.0,
        ranges > 0 ==> r.0 == ranges,
        ranges == 0 ==> r.0 == 1,
        current_page < r.0 ==> r.1 == current_page,
        current_page >= r.0 ==> r.1 + 1 == r.0,
{
    let total = if ranges == 0 { 1 } else { ranges };
    let page = if current_page >= total { total - 1 } else { current_page };
    (total, page)
}

/// The page total counts every laid-out page range, and is one for a chapter
/// laid out into none: it is the larger of the range count and one.
pub proof fn law_page_total_counts_ranges(n: nat)
    ensures
        page_total(n) >= 1,
        page_total(n) >= n,
        n > 0 ==> page_total(n) == n,
        n == 0 ==> page_total(n) == 1,
{
}

} // verus!
