//! Laws the syscall layer obeys, stated over the abstract table model that
//! the syscall contracts speak of and proved once for all inputs.
use crate::syscall::mmap_ok;
use crate::syscall::mmap_result;
use crate::syscall::munmap_ok;
use crate::syscall::munmap_result;
use crate::syscall::page_aligned;
use crate::syscall::pages_for;
use crate::syscall::prot_empty;
use crate::syscall::prot_has_reserved_bits;
use crate::syscall::range_free;
use crate::syscall::time_sec;
use crate::syscall::time_usec;
use crate::syscall::vpn_of;
use crate::vma::MapPermission;
use crate::PAGE_SIZE;
use vstd::arithmetic::div_mod::lemma_div_is_ordered;
use vstd::arithmetic::div_mod::lemma_fundamental_div_mod;
use vstd::prelude::*;

verus! {

/// A non-empty byte range needs at least one page.
proof fn lemma_pages_pos(len: usize)
    requires
        len > 0,
    ensures
        pages_for(len) >= 1,
{
    let ps = PAGE_SIZE as int;
    let q = len as int / ps;
    let r = len as int % ps;
    lemma_fundamental_div_mod(len as int, ps);
    assert((r == 0 ==> q >= 1) && q >= 0) by (nonlinear_arith)
        requires
            len as int == ps * q + r,
            0 <= r < ps,
            ps == 4096,
            len as int >= 1,
    ;
}

/// Mapping the same non-empty range twice fails the second time, whatever
/// protection the second request asks; and since a failed map changes nothing
/// (see `sys_mmap`), the first mapping's permissions stay untouched.
pub proof fn lemma_remap_same_range_fails(
    m: Map<int, MapPermission>,
    start: usize,
    len: usize,
    prot1: usize,
    prot2: usize,
)
    requires
        len > 0,
        mmap_ok(m, start, len, prot1),
    ensures
        !mmap_ok(mmap_result(m, start, len, prot1), start, len, prot2),
{
    lemma_pages_pos(len);
    let svpn = vpn_of(start);
    let n = pages_for(len);
    let m1 = mmap_result(m, start, len, prot1);
    assert(m1.dom().contains(svpn));
    assert(!range_free(m1, svpn, n));
}

/// With a misaligned start address, neither mapping nor unmapping can
/// succeed, whatever the other arguments are; and failed calls change
/// nothing (see `sys_mmap` and `sys_munmap`).
pub proof fn lemma_misaligned_start_fails(
    m: Map<int, MapPermission>,
    start: usize,
    len: usize,
    prot: usize,
)
    requires
        !page_aligned(start),
    ensures
        !mmap_ok(m, start, len, prot),
        !munmap_ok(m, start, len),
{
}

/// Unmapping a range that contains an unmapped page cannot succeed; and a
/// failed unmap leaves the whole table, so every already-mapped page,
/// unchanged (see `sys_munmap`).
pub proof fn lemma_unmap_gap_fails(m: Map<int, MapPermission>, start: usize, len: usize, p: int)
    requires
        vpn_of(start) <= p < vpn_of(start) + pages_for(len),
        !m.dom().contains(p),
    ensures
        !munmap_ok(m, start, len),
{
}

/// A protection mask with no access bit, or with any reserved bit set,
/// makes every map request fail.
pub proof fn lemma_invalid_prot_fails(
    m: Map<int, MapPermission>,
    start: usize,
    len: usize,
    prot: usize,
)
    requires
        prot_empty(prot) || prot_has_reserved_bits(prot),
    ensures
        !mmap_ok(m, start, len, prot),
{
}

/// A successful map followed by an unmap of the same non-empty range releases
/// it completely: the unmap is owed success, the table returns to its old
/// value, and mapping the range again with any valid protection succeeds.
pub proof fn lemma_map_unmap_releases(
    m: Map<int, MapPermission>,
    start: usize,
    len: usize,
    prot1: usize,
    prot2: usize,
)
    requires
        len > 0,
        mmap_ok(m, start, len, prot1),
        !prot_has_reserved_bits(prot2),
        !prot_empty(prot2),
    ensures
        munmap_ok(mmap_result(m, start, len, prot1), start, len),
        munmap_result(mmap_result(m, start, len, prot1), start, len) == m,
        mmap_ok(munmap_result(mmap_result(m, start, len, prot1), start, len), start, len, prot2),
{
    lemma_pages_pos(len);
    let svpn = vpn_of(start);
    let n = pages_for(len);
    let m1 = mmap_result(m, start, len, prot1);
    let m2 = munmap_result(m1, start, len);
    assert forall|p: int| svpn <= p < svpn + n implies #[trigger] m1.dom().contains(p) by {}
    assert forall|p: int| m2.dom().contains(p) == m.dom().contains(p) by {
        if m.dom().contains(p) {
            assert(!(svpn <= p < svpn + n));
        }
    }
    assert forall|p: int| m2.dom().contains(p) implies m2[p] == m[p] by {
        assert(!(svpn <= p < svpn + n));
    }
    assert(m2 =~= m);
}

/// Clock readings split into `{seconds, microseconds}` order as the raw
/// readings do: a later reading never yields a lexicographically smaller
/// pair, so repeated reads of a monotonic clock report non-decreasing pairs.
pub proof fn lemma_time_pairs_monotonic(us1: usize, us2: usize)
    requires
        us1 <= us2,
    ensures
        time_sec(us1) < time_sec(us2) || (time_sec(us1) == time_sec(us2) && time_usec(us1)
            <= time_usec(us2)),
{
    lemma_div_is_ordered(us1 as int, us2 as int, 1_000_000);
    if time_sec(us1) == time_sec(us2) {
        lemma_fundamental_div_mod(us1 as int, 1_000_000);
        lemma_fundamental_div_mod(us2 as int, 1_000_000);
    }
}

} // verus!
