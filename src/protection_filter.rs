//! Classification of memory regions by their protection flags.
use vstd::prelude::*;
use vstd::string::*;

verus! {

/// Protection flags of a mapped region. A mapped region is always taken as
/// readable, so only the write and execute permissions are recorded.
#[derive(Clone, Copy, Debug, PartialEq, Eq, Structural)]
pub struct Protection {
    pub writable: bool,
    pub executable: bool,
}

/// A mapped region of the foreign process: `[base, base + size)`.
#[derive(Clone, Copy, Debug, PartialEq, Eq, Structural)]
pub struct MemoryRegion {
    pub base: u64,
    pub size: u64,
    pub protection: Protection,
}

/// The three-character `rwx` form of a protection, `-` marking a missing right.
pub open spec fn rwx_of(p: Protection) -> Seq<char> {
    seq!['r', if p.writable { 'w' } else { '-' }, if p.executable { 'x' } else { '-' }]
}

/// `needle` occurs in `hay` as a contiguous run starting at `i`.
pub open spec fn occurs_at(needle: Seq<char>, hay: Seq<char>, i: int) -> bool {
    0 <= i && i + needle.len() <= hay.len() && hay.subrange(i, i + needle.len()) == needle
}

/// `needle` occurs somewhere in `hay` as a contiguous run.
pub open spec fn contains_run(hay: Seq<char>, needle: Seq<char>) -> bool {
    exists|i: int| occurs_at(needle, hay, i)
}

/// A region passes a filter when its `rwx` form holds the filter as a run.
pub open spec fn filter_matches(p: Protection, filter: Seq<char>) -> bool {
    contains_run(rwx_of(p), filter)
}

/// Size bounds and an optional protection filter applied to one region.
pub open spec fn region_passes(
    region: MemoryRegion,
    min_size: u64,
    max_size: Option<u64>,
    filter: Option<Seq<char>>,
) -> bool {
    &&& min_size <= region.size
    &&& (max_size matches Some(m) ==> region.size <= m)
    &&& (filter matches Some(f) ==> filter_matches(region.protection, f))
}

/// The `rwx` form of a protection, e.g. `"r-x"` for an executable,
/// non-writable region.
pub fn page_type_to_rwx(page_type: Protection) -> (r: String)
    ensures
        r@ == rwx_of(page_type),
{
    proof {
        reveal_strlit("rwx");
        reveal_strlit("rw-");
        reveal_strlit("r-x");
        reveal_strlit("r--");
    }
    let s: &str = if page_type.writable {
        if page_type.executable { "rwx" } else { "rw-" }
    } else {
        if page_type.executable { "r-x" } else { "r--" }
    };
    let r = s.to_owned();
    assert(r@ =~= rwx_of(page_type));
    r
}

/// Whether `needle` occurs as a contiguous run in `hay`.
fn str_contains(hay: &str, needle: &str) -> (r: bool)
    ensures
        r == contains_run(hay@, needle@),
{
    let n = hay.unicode_len();
    let m = needle.unicode_len();
    if m > n {
        assert forall|i: int| !occurs_at(needle@, hay@, i) by {}
        return false;
    }
    let mut i: usize = 0;
    while i <= n - m
        invariant
            n == hay@.len(),
            m == needle@.len(),
            m <= n,
            forall|k: int| 0 <= k < i ==> !occurs_at(needle@, hay@, k),
        decreases n - m + 1 - i,
    {
        let mut j: usize = 0;
        let mut same = true;
        while j < m
            invariant
                n == hay@.len(),
                m == needle@.len(),
                i + m <= n,
                j <= m,
                same == (forall|t: int| 0 <= t < j ==> hay@[i + t] == needle@[t]),
            decreases m - j,
        {
            if hay.get_char(i + j) != needle.get_char(j) {
                same = false;
            }
            j = j + 1;
        }
        if same {
            assert(hay@.subrange(i as int, i + m) =~= needle@);
            assert(occurs_at(needle@, hay@, i as int));
            return true;
        }
        assert(!occurs_at(needle@, hay@, i as int)) by {
            if occurs_at(needle@, hay@, i as int) {
                assert forall|t: int| 0 <= t < m implies hay@[i + t] == needle@[t] by {
                    assert(hay@.subrange(i as int, i + m)[t] == hay@[i + t]);
                }
            }
        }
        i = i + 1;
    }
    assert forall|k: int| !occurs_at(needle@, hay@, k) by {
        if 0 <= k && k + m <= n {
            assert(k < i);
        }
    }
    false
}

/// Whether a region with these flags passes the protection filter: the filter
/// must occur verbatim in the region's `rwx` form, so `"r"` passes every
/// region and `"wx"` passes `"rwx"`.
pub fn protection_filter_matches(page_type: Protection, filter: &str) -> (r: bool)
    ensures
        r == filter_matches(page_type, filter@),
{
    let rwx = page_type_to_rwx(page_type);
    str_contains(rwx.as_str(), filter)
}

/// Whether a region is to be scanned: its size lies within the bounds and, when
/// a protection filter is given, its flags pass it.
pub fn region_selected(
    region: &MemoryRegion,
    min_size: u64,
    max_size: Option<u64>,
    filter: Option<&str>,
) -> (r: bool)
    ensures
        r == region_passes(*region, min_size, max_size, match filter {
            Some(f) => Some(f@),
            None => None,
        }),
{
    if region.size < min_size {
        return false;
    }
    if let Some(m) = max_size {
        if region.size > m {
            return false;
        }
    }
    match filter {
        Some(f) => protection_filter_matches(region.protection, f),
        None => true,
    }
}

} // verus!
