//! The VMA table: an address space's set of page-granular, non-overlapping,
//! permission-tagged memory regions, plus its program-break cursor.
use vstd::prelude::*;

verus! {

/// Permission set attached to a mapped region. Every region a task maps on
/// its own behalf carries `user`; at least one of the three access kinds is
/// required for a region to be meaningful.
#[derive(Clone, Copy, PartialEq, Eq, Structural, Debug)]
pub struct MapPermission {
    pub readable: bool,
    pub writable: bool,
    pub executable: bool,
    pub user: bool,
}

impl MapPermission {
    /// A well-formed permission set: user-accessible with at least one access kind.
    pub open spec fn wf(self) -> bool {
        self.user && (self.readable || self.writable || self.executable)
    }
}

/// One contiguous range of mapped pages sharing a permission set.
/// Both end points are inclusive, so a region always spans at least one page.
#[derive(Clone, Copy, PartialEq, Eq, Structural, Debug)]
pub struct MappedRegion {
    pub start_vpn: usize,
    pub end_vpn: usize,
    pub perm: MapPermission,
}

impl MappedRegion {
    /// The region covers virtual page `p`.
    pub open spec fn covers(self, p: int) -> bool {
        self.start_vpn <= p <= self.end_vpn
    }

    /// The two regions share at least one page.
    pub open spec fn overlaps_region(self, other: MappedRegion) -> bool {
        self.start_vpn <= other.end_vpn && other.start_vpn <= self.end_vpn
    }

    pub open spec fn wf(self) -> bool {
        self.start_vpn <= self.end_vpn && self.perm.wf()
    }
}

/// Some region in `s` covers page `p`.
pub open spec fn covered_by(s: Seq<MappedRegion>, p: int) -> bool {
    exists|i: int| 0 <= i < s.len() && (#[trigger] s[i]).covers(p)
}

/// The permission recorded for page `p`; meaningful only when `covered_by(s, p)`
/// holds and the regions are disjoint.
pub open spec fn perm_at(s: Seq<MappedRegion>, p: int) -> MapPermission {
    let i = choose|i: int| 0 <= i < s.len() && (#[trigger] s[i]).covers(p);
    s[i].perm
}

/// No two distinct regions in `s` share a page.
pub open spec fn regions_disjoint(s: Seq<MappedRegion>) -> bool {
    forall|i: int, j: int|
        0 <= i < s.len() && 0 <= j < s.len() && i != j ==> !(#[trigger] s[i]).overlaps_region(
            #[trigger] s[j],
        )
}

/// Every region is well-formed and the regions are pairwise disjoint.
pub open spec fn regions_wf(s: Seq<MappedRegion>) -> bool {
    &&& forall|i: int| 0 <= i < s.len() ==> (#[trigger] s[i]).wf()
    &&& regions_disjoint(s)
}

/// The abstract content of a region sequence: which pages are mapped, and
/// with what permissions.
pub open spec fn seq_mapped(s: Seq<MappedRegion>) -> Map<int, MapPermission> {
    Map::new(|p: int| covered_by(s, p), |p: int| perm_at(s, p))
}

/// Two regions covering the same page must be the same region.
proof fn lemma_cover_unique(s: Seq<MappedRegion>, p: int, i: int, j: int)
    requires
        regions_disjoint(s),
        0 <= i < s.len(),
        0 <= j < s.len(),
        s[i].covers(p),
        s[j].covers(p),
    ensures
        i == j,
{
    if i != j {
        assert(s[i].overlaps_region(s[j]));
    }
}

/// A page covered by region `i` is in the mapped view with that region's permission.
proof fn lemma_mapped_at(s: Seq<MappedRegion>, i: int, p: int)
    requires
        regions_disjoint(s),
        0 <= i < s.len(),
        s[i].covers(p),
    ensures
        seq_mapped(s).dom().contains(p),
        seq_mapped(s)[p] == s[i].perm,
{
    assert(covered_by(s, p));
    let j = choose|j: int| 0 <= j < s.len() && (#[trigger] s[j]).covers(p);
    lemma_cover_unique(s, p, i, j);
}

/// Membership in the mapped view is exactly coverage by some region.
proof fn lemma_mapped_dom(s: Seq<MappedRegion>, p: int)
    ensures
        seq_mapped(s).dom().contains(p) == covered_by(s, p),
{
}

/// `inner` lies within `outer` and carries the same permission.
pub open spec fn sub_region(inner: MappedRegion, outer: MappedRegion) -> bool {
    outer.start_vpn <= inner.start_vpn && inner.end_vpn <= outer.end_vpn && inner.perm
        == outer.perm
}

/// `r` is a piece (sub-range, same permission) of one of the first `k`
/// regions of `src`.
pub open spec fn piece_in(r: MappedRegion, src: Seq<MappedRegion>, k: int) -> bool {
    exists|j: int| 0 <= j < k && sub_region(r, #[trigger] src[j])
}

/// Every region of `out` is a piece of one of the first `k` regions of `src`.
pub open spec fn pieces_of(out: Seq<MappedRegion>, src: Seq<MappedRegion>, k: int) -> bool {
    forall|i: int| 0 <= i < out.len() ==> piece_in(#[trigger] out[i], src, k)
}

/// Pushing a region extends coverage by exactly that region's pages.
proof fn lemma_covered_push(s: Seq<MappedRegion>, r: MappedRegion, p: int)
    ensures
        covered_by(s.push(r), p) == (covered_by(s, p) || r.covers(p)),
{
    let t = s.push(r);
    if covered_by(t, p) {
        let i = choose|i: int| 0 <= i < t.len() && (#[trigger] t[i]).covers(p);
        if i < s.len() {
            assert(s[i].covers(p));
        } else {
            assert(t[i] == r);
        }
    }
    if covered_by(s, p) {
        let i = choose|i: int| 0 <= i < s.len() && (#[trigger] s[i]).covers(p);
        assert(t[i].covers(p));
    }
    if r.covers(p) {
        assert(t[s.len() as int].covers(p));
    }
}

/// Pushing a well-formed region that overlaps no existing one keeps the
/// sequence well-formed.
proof fn lemma_disjoint_push(s: Seq<MappedRegion>, r: MappedRegion)
    requires
        regions_wf(s),
        r.wf(),
        forall|i: int| 0 <= i < s.len() ==> !(#[trigger] s[i]).overlaps_region(r),
    ensures
        regions_wf(s.push(r)),
{
    let t = s.push(r);
    let n = s.len() as int;
    assert forall|i: int, j: int|
        0 <= i < t.len() && 0 <= j < t.len() && i != j implies !(#[trigger] t[i]).overlaps_region(
        #[trigger] t[j],
    ) by {
        if i < n && j < n {
            assert(!s[i].overlaps_region(s[j]));
        } else if i == n {
            assert(!s[j].overlaps_region(r));
        } else {
            assert(!s[i].overlaps_region(r));
        }
    }
}

/// Pieces of non-overlapping regions do not overlap either.
proof fn lemma_sub_not_overlaps(a: MappedRegion, b: MappedRegion, oa: MappedRegion, ob: MappedRegion)
    requires
        sub_region(a, oa),
        sub_region(b, ob),
        !oa.overlaps_region(ob),
    ensures
        !a.overlaps_region(b),
{
}

/// The mapped pages of `m` extended by the range `[start_vpn, end_vpn]`,
/// every page of the range tagged `perm`.
pub open spec fn insert_range(
    m: Map<int, MapPermission>,
    start_vpn: int,
    end_vpn: int,
    perm: MapPermission,
) -> Map<int, MapPermission> {
    Map::new(
        |p: int| m.dom().contains(p) || start_vpn <= p <= end_vpn,
        |p: int|
            if start_vpn <= p <= end_vpn {
                perm
            } else {
                m[p]
            },
    )
}

/// Widening the prefix bound keeps the piece relation.
proof fn lemma_pieces_mono(out: Seq<MappedRegion>, src: Seq<MappedRegion>, k: int, kk: int)
    requires
        pieces_of(out, src, k),
        k <= kk,
    ensures
        pieces_of(out, src, kk),
{
    assert forall|i: int| 0 <= i < out.len() implies piece_in(#[trigger] out[i], src, kk) by {
        assert(piece_in(out[i], src, k));
        let j = choose|j: int| 0 <= j < k && sub_region(out[i], #[trigger] src[j]);
        assert(sub_region(out[i], src[j]));
    }
}

/// Pushing a piece of `src[j]` keeps the piece relation, for any bound past `j`.
proof fn lemma_pieces_push(
    out: Seq<MappedRegion>,
    src: Seq<MappedRegion>,
    k: int,
    kk: int,
    r: MappedRegion,
    j: int,
)
    requires
        pieces_of(out, src, k),
        k <= kk,
        0 <= j < kk,
        sub_region(r, src[j]),
    ensures
        pieces_of(out.push(r), src, kk),
{
    let t = out.push(r);
    assert forall|i: int| 0 <= i < t.len() implies piece_in(#[trigger] t[i], src, kk) by {
        if i < out.len() {
            assert(t[i] == out[i]);
            assert(piece_in(out[i], src, k));
            let jj = choose|jj: int| 0 <= jj < k && sub_region(out[i], #[trigger] src[jj]);
            assert(sub_region(t[i], src[jj]));
        } else {
            assert(t[i] == r);
            assert(sub_region(t[i], src[j]));
        }
    }
}

/// The mapped pages of `m` with every page of `[start_vpn, end_vpn]` removed.
pub open spec fn remove_range(
    m: Map<int, MapPermission>,
    start_vpn: int,
    end_vpn: int,
) -> Map<int, MapPermission> {
    Map::new(|p: int| m.dom().contains(p) && !(start_vpn <= p <= end_vpn), |p: int| m[p])
}

/// One task's address space: its mapped regions and its program-break cursor.
/// Physical backing (frames and page-table entries) is the external memory
/// manager's concern and is not tracked here.
pub struct AddressSpace {
    pub regions: Vec<MappedRegion>,
    pub heap_bottom: usize,
    pub program_brk: usize,
    pub heap_limit: usize,
}

impl AddressSpace {
    /// Internal invariant: well-formed disjoint regions, and the break cursor
    /// inside the valid heap range. The heap limit stays below `isize::MAX`
    /// so a break address survives the signed syscall return channel.
    pub open spec fn wf(self) -> bool {
        &&& regions_wf(self.regions@)
        &&& self.heap_bottom <= self.program_brk <= self.heap_limit
        &&& self.heap_limit <= isize::MAX as usize
    }

    /// The abstract content of the table: mapped page -> permission.
    pub open spec fn mapped(self) -> Map<int, MapPermission> {
        seq_mapped(self.regions@)
    }

    /// A fresh address space with no mapped regions and the break at the heap bottom.
    pub fn new(heap_bottom: usize, heap_limit: usize) -> (s: AddressSpace)
        requires
            heap_bottom <= heap_limit,
            heap_limit <= isize::MAX as usize,
        ensures
            s.wf(),
            s.mapped() == Map::<int, MapPermission>::empty(),
            s.heap_bottom == heap_bottom,
            s.program_brk == heap_bottom,
            s.heap_limit == heap_limit,
    {
        let s = AddressSpace {
            regions: Vec::new(),
            heap_bottom,
            program_brk: heap_bottom,
            heap_limit,
        };
        proof {
            assert(s.mapped() =~= Map::<int, MapPermission>::empty());
        }
        s
    }

    /// Whether virtual page `vpn` is currently mapped.
    pub fn contains_mapping(&self, vpn: usize) -> (r: bool)
        ensures
            r == self.mapped().dom().contains(vpn as int),
    {
        let n = self.regions.len();
        let mut i: usize = 0;
        while i < n
            invariant
                i <= n,
                n == self.regions@.len(),
                forall|k: int| 0 <= k < i ==> !(#[trigger] self.regions@[k]).covers(vpn as int),
            decreases n - i,
        {
            let re = self.regions[i];
            if re.start_vpn <= vpn && vpn <= re.end_vpn {
                proof {
                    assert(self.regions@[i as int].covers(vpn as int));
                    lemma_mapped_dom(self.regions@, vpn as int);
                }
                return true;
            }
            i += 1;
        }
        proof {
            assert(!covered_by(self.regions@, vpn as int));
            lemma_mapped_dom(self.regions@, vpn as int);
        }
        false
    }

    /// Whether any page in `[start_vpn, start_vpn + count)` is already mapped.
    pub fn overlaps(&self, start_vpn: usize, count: usize) -> (r: bool)
        requires
            self.wf(),
            start_vpn + count <= usize::MAX,
        ensures
            r == exists|p: int|
                start_vpn <= p < start_vpn + count && #[trigger] self.mapped().dom().contains(p),
    {
        if count == 0 {
            proof {
                assert(!(exists|p: int|
                    start_vpn <= p < start_vpn + count && #[trigger] self.mapped().dom().contains(
                        p,
                    )));
            }
            return false;
        }
        let last = start_vpn + (count - 1);
        let n = self.regions.len();
        let mut i: usize = 0;
        while i < n
            invariant
                self.wf(),
                i <= n,
                n == self.regions@.len(),
                last == start_vpn + count - 1,
                count >= 1,
                forall|k: int, p: int|
                    0 <= k < i && start_vpn <= p <= last ==> !(#[trigger] self.regions@[k].covers(
                        p,
                    )),
            decreases n - i,
        {
            let re = self.regions[i];
            if re.end_vpn >= start_vpn && re.start_vpn <= last {
                proof {
                    let w: int = if re.start_vpn >= start_vpn {
                        re.start_vpn as int
                    } else {
                        start_vpn as int
                    };
                    assert(self.regions@[i as int].wf());
                    assert(self.regions@[i as int].covers(w));
                    assert(start_vpn <= w <= last);
                    assert(covered_by(self.regions@, w));
                    lemma_mapped_dom(self.regions@, w);
                    assert(self.mapped().dom().contains(w));
                }
                return true;
            }
            i += 1;
        }
        proof {
            assert forall|p: int| start_vpn <= p < start_vpn + count implies !self.mapped(
            ).dom().contains(p) by {
                lemma_mapped_dom(self.regions@, p);
            }
        }
        false
    }

    /// Adds the disjoint region `[start_vpn, end_vpn]` with permission `perm`.
    /// The caller has already checked that no page of the range is mapped and
    /// that the permission carries `user` plus at least one access kind.
    pub fn insert(&mut self, start_vpn: usize, end_vpn: usize, perm: MapPermission)
        requires
            old(self).wf(),
            start_vpn <= end_vpn,
            perm.wf(),
            forall|p: int|
                start_vpn <= p <= end_vpn ==> !(#[trigger] old(self).mapped().dom().contains(p)),
        ensures
            final(self).wf(),
            final(self).mapped() == insert_range(
                old(self).mapped(),
                start_vpn as int,
                end_vpn as int,
                perm,
            ),
            final(self).heap_bottom == old(self).heap_bottom,
            final(self).program_brk == old(self).program_brk,
            final(self).heap_limit == old(self).heap_limit,
    {
        let region = MappedRegion { start_vpn, end_vpn, perm };
        proof {
            let s = old(self).regions@;
            assert forall|i: int| 0 <= i < s.len() implies !(#[trigger] s[i]).overlaps_region(
                region,
            ) by {
                if s[i].overlaps_region(region) {
                    assert(s[i].wf());
                    let w: int = if s[i].start_vpn >= start_vpn {
                        s[i].start_vpn as int
                    } else {
                        start_vpn as int
                    };
                    assert(s[i].covers(w));
                    assert(start_vpn <= w <= end_vpn);
                    assert(covered_by(s, w));
                    lemma_mapped_dom(s, w);
                    assert(old(self).mapped().dom().contains(w));
                }
            }
        }
        self.regions.push(region);
        proof {
            let olds = old(self).regions@;
            let news = self.regions@;
            let n = olds.len() as int;
            assert(news == olds.push(region));
            assert forall|i: int, j: int|
                0 <= i < news.len() && 0 <= j < news.len() && i != j implies !(
            #[trigger] news[i]).overlaps_region(#[trigger] news[j]) by {
                if i < n && j < n {
                    assert(!olds[i].overlaps_region(olds[j]));
                } else if i == n {
                    assert(!olds[j].overlaps_region(region));
                } else {
                    assert(!olds[i].overlaps_region(region));
                }
            }
            assert(regions_wf(news));
            let m0 = old(self).mapped();
            let m1 = self.mapped();
            let want = insert_range(m0, start_vpn as int, end_vpn as int, perm);
            assert forall|p: int| m1.dom().contains(p) == want.dom().contains(p) by {
                lemma_mapped_dom(news, p);
                lemma_mapped_dom(olds, p);
                if covered_by(news, p) {
                    let i = choose|i: int| 0 <= i < news.len() && (#[trigger] news[i]).covers(p);
                    if i < n {
                        assert(olds[i].covers(p));
                        assert(covered_by(olds, p));
                    } else {
                        assert(region.covers(p));
                    }
                }
                if covered_by(olds, p) {
                    let i = choose|i: int| 0 <= i < olds.len() && (#[trigger] olds[i]).covers(p);
                    assert(news[i].covers(p));
                    assert(covered_by(news, p));
                }
                if start_vpn <= p <= end_vpn {
                    assert(news[n].covers(p));
                    assert(covered_by(news, p));
                }
            }
            assert forall|p: int| m1.dom().contains(p) implies m1[p] == want[p] by {
                lemma_mapped_dom(news, p);
                lemma_mapped_dom(olds, p);
                if start_vpn <= p <= end_vpn {
                    assert(news[n].covers(p));
                    lemma_mapped_at(news, n, p);
                } else {
                    let i = choose|i: int| 0 <= i < news.len() && (#[trigger] news[i]).covers(p);
                    assert(i < n);
                    assert(olds[i].covers(p));
                    lemma_mapped_at(news, i, p);
                    lemma_mapped_at(olds, i, p);
                    assert(covered_by(olds, p));
                }
            }
            assert(m1 =~= want);
        }
    }

    /// Moves the program break by `size` bytes and returns the previous break,
    /// or fails with no mutation when the new break would leave the valid heap
    /// range `[heap_bottom, heap_limit]`. Allocating or freeing the pages the
    /// heap gains or loses is the external memory manager's work.
    pub fn change_program_brk(&mut self, size: i32) -> (r: Option<usize>)
        requires
            old(self).wf(),
        ensures
            final(self).wf(),
            final(self).regions == old(self).regions,
            final(self).mapped() == old(self).mapped(),
            final(self).heap_bottom == old(self).heap_bottom,
            final(self).heap_limit == old(self).heap_limit,
            (old(self).heap_bottom <= old(self).program_brk + size <= old(self).heap_limit) ==> (r
                == Some(old(self).program_brk) && final(self).program_brk == old(self).program_brk
                + size),
            !(old(self).heap_bottom <= old(self).program_brk + size <= old(self).heap_limit) ==> (r
                == None::<usize> && final(self).program_brk == old(self).program_brk),
    {
        let old_brk = self.program_brk;
        if size >= 0 {
            let inc = size as usize;
            if inc <= self.heap_limit - old_brk {
                self.program_brk = old_brk + inc;
                Some(old_brk)
            } else {
                None
            }
        } else {
            let dec = (-(size as i64)) as usize;
            if dec <= old_brk - self.heap_bottom {
                self.program_brk = old_brk - dec;
                Some(old_brk)
            } else {
                None
            }
        }
    }

    /// Deletes exactly the pages `[start_vpn, end_vpn]`, trimming or splitting
    /// any region that only partially overlaps the range so pages outside it
    /// stay mapped. The caller has already checked that every page of the
    /// range is currently mapped.
    pub fn remove(&mut self, start_vpn: usize, end_vpn: usize)
        requires
            old(self).wf(),
            start_vpn <= end_vpn,
            forall|p: int|
                start_vpn <= p <= end_vpn ==> #[trigger] old(self).mapped().dom().contains(p),
        ensures
            final(self).wf(),
            final(self).mapped() == remove_range(
                old(self).mapped(),
                start_vpn as int,
                end_vpn as int,
            ),
            final(self).heap_bottom == old(self).heap_bottom,
            final(self).program_brk == old(self).program_brk,
            final(self).heap_limit == old(self).heap_limit,
    {
        let kept = remove_from_regions(&self.regions, start_vpn, end_vpn);
        self.regions = kept;
        proof {
            let olds = old(self).regions@;
            let news = self.regions@;
            let m0 = old(self).mapped();
            let m1 = self.mapped();
            let want = remove_range(m0, start_vpn as int, end_vpn as int);
            assert forall|p: int| m1.dom().contains(p) == want.dom().contains(p) by {
                lemma_mapped_dom(news, p);
                lemma_mapped_dom(olds, p);
            }
            assert forall|p: int| m1.dom().contains(p) implies m1[p] == want[p] by {
                lemma_mapped_dom(news, p);
                lemma_mapped_dom(olds, p);
                let i = choose|i: int| 0 <= i < news.len() && (#[trigger] news[i]).covers(p);
                assert(piece_in(news[i], olds, olds.len() as int));
                let j = choose|j: int|
                    0 <= j < olds.len() && sub_region(news[i], #[trigger] olds[j]);
                assert(olds[j].covers(p));
                lemma_mapped_at(news, i, p);
                lemma_mapped_at(olds, j, p);
            }
            assert(m1 =~= want);
        }
    }
}

/// Rebuilds a region sequence with every page of `[start_vpn, end_vpn]`
/// dropped: regions outside the range are kept whole, regions crossing its
/// edges are trimmed, and a region enclosing it is split in two.
fn remove_from_regions(regions: &Vec<MappedRegion>, start_vpn: usize, end_vpn: usize) -> (out: Vec<
    MappedRegion,
>)
    requires
        regions_wf(regions@),
        start_vpn <= end_vpn,
    ensures
        regions_wf(out@),
        forall|p: int|
            #[trigger] covered_by(out@, p) == (covered_by(regions@, p) && !(start_vpn <= p
                <= end_vpn)),
        pieces_of(out@, regions@, regions@.len() as int),
{
    let ghost src = regions@;
    let mut out: Vec<MappedRegion> = Vec::new();
    let n = regions.len();
    let mut idx: usize = 0;
    proof {
        assert(pieces_of(out@, src, 0));
        assert forall|p: int| #[trigger] covered_by(out@, p) == (covered_by(
            src.take(0),
            p,
        ) && !(start_vpn <= p <= end_vpn)) by {
            assert(!covered_by(out@, p));
            assert(!covered_by(src.take(0), p));
        }
    }
    while idx < n
        invariant
            regions_wf(src),
            start_vpn <= end_vpn,
            idx <= n,
            n == src.len(),
            regions@ == src,
            regions_wf(out@),
            forall|p: int|
                #[trigger] covered_by(out@, p) == (covered_by(src.take(idx as int), p) && !(
                start_vpn <= p <= end_vpn)),
            pieces_of(out@, src, idx as int),
        decreases n - idx,
    {
        let re = regions[idx];
        let ghost k = idx as int;
        let ghost o0 = out@;
        proof {
            assert(src[k].wf());
            assert(src.take(k + 1) =~= src.take(k).push(src[k]));
        }
        if re.end_vpn < start_vpn || re.start_vpn > end_vpn {
            // No page of this region is being removed: keep it whole.
            proof {
                assert forall|i: int| 0 <= i < o0.len() implies !(#[trigger] o0[i]).overlaps_region(
                    re,
                ) by {
                    assert(piece_in(o0[i], src, k));
                    let j = choose|j: int| 0 <= j < k && sub_region(o0[i], #[trigger] src[j]);
                    assert(!src[j].overlaps_region(src[k]));
                    lemma_sub_not_overlaps(o0[i], re, src[j], src[k]);
                }
                lemma_disjoint_push(o0, re);
                lemma_pieces_push(o0, src, k, k + 1, re, k);
            }
            out.push(re);
            proof {
                assert forall|p: int| #[trigger] covered_by(out@, p) == (covered_by(
                    src.take(k + 1),
                    p,
                ) && !(start_vpn <= p <= end_vpn)) by {
                    lemma_covered_push(o0, re, p);
                    lemma_covered_push(src.take(k), src[k], p);
                    assert(covered_by(o0, p) == (covered_by(src.take(k), p) && !(start_vpn <= p
                        <= end_vpn)));
                }
            }
        } else {
            // The region intersects the removed range: keep the parts that
            // stick out on each side, drop the covered middle.
            let has_left = re.start_vpn < start_vpn;
            let has_right = re.end_vpn > end_vpn;
            if has_left {
                let left = MappedRegion {
                    start_vpn: re.start_vpn,
                    end_vpn: start_vpn - 1,
                    perm: re.perm,
                };
                proof {
                    assert(sub_region(left, src[k]));
                    assert forall|i: int|
                        0 <= i < o0.len() implies !(#[trigger] o0[i]).overlaps_region(left) by {
                        assert(piece_in(o0[i], src, k));
                        let j = choose|j: int| 0 <= j < k && sub_region(o0[i], #[trigger] src[j]);
                        assert(!src[j].overlaps_region(src[k]));
                        lemma_sub_not_overlaps(o0[i], left, src[j], src[k]);
                    }
                    lemma_disjoint_push(o0, left);
                    lemma_pieces_push(o0, src, k, k + 1, left, k);
                }
                out.push(left);
                proof {
                    assert forall|p: int| #[trigger] covered_by(out@, p) == (covered_by(o0, p) || (
                    re.start_vpn <= p < start_vpn)) by {
                        lemma_covered_push(o0, left, p);
                    }
                }
            }
            let ghost o1 = out@;
            proof {
                if !has_left {
                    lemma_pieces_mono(o1, src, k, k + 1);
                }
                assert(pieces_of(o1, src, k + 1));
                assert forall|p: int| #[trigger] covered_by(o1, p) == (covered_by(o0, p) || (
                has_left && re.start_vpn <= p < start_vpn)) by {
                    if !has_left {
                        assert(o1 == o0);
                    }
                }
            }
            if has_right {
                let right = MappedRegion {
                    start_vpn: end_vpn + 1,
                    end_vpn: re.end_vpn,
                    perm: re.perm,
                };
                proof {
                    assert(sub_region(right, src[k]));
                    assert forall|i: int|
                        0 <= i < o1.len() implies !(#[trigger] o1[i]).overlaps_region(right) by {
                        if i < o0.len() {
                            assert(o1[i] == o0[i]);
                            assert(piece_in(o0[i], src, k));
                            let j = choose|j: int| 0 <= j < k && sub_region(o0[i], #[trigger] src[j]);
                            assert(!src[j].overlaps_region(src[k]));
                            lemma_sub_not_overlaps(o1[i], right, src[j], src[k]);
                        } else {
                            // the only later element is the left piece, which
                            // ends before the removed range begins
                            assert(o1[i].end_vpn < right.start_vpn);
                        }
                    }
                    lemma_disjoint_push(o1, right);
                    lemma_pieces_push(o1, src, k + 1, k + 1, right, k);
                }
                out.push(right);
                proof {
                    assert forall|p: int| #[trigger] covered_by(out@, p) == (covered_by(o1, p) || (
                    end_vpn < p <= re.end_vpn)) by {
                        lemma_covered_push(o1, right, p);
                    }
                }
            }
            let ghost o2 = out@;
            proof {
                if !has_right {
                    assert(o2 == o1);
                }
                assert(pieces_of(o2, src, k + 1));
                assert forall|p: int| #[trigger] covered_by(o2, p) == (covered_by(
                    src.take(k + 1),
                    p,
                ) && !(start_vpn <= p <= end_vpn)) by {
                    assert(covered_by(o2, p) == (covered_by(o1, p) || (has_right && end_vpn < p
                        <= re.end_vpn)));
                    assert(covered_by(o1, p) == (covered_by(o0, p) || (has_left && re.start_vpn <= p
                        < start_vpn)));
                    assert(covered_by(o0, p) == (covered_by(src.take(k), p) && !(start_vpn <= p
                        <= end_vpn)));
                    lemma_covered_push(src.take(k), src[k], p);
                }
            }
        }
        idx += 1;
    }
    proof {
        assert(src.take(n as int) =~= src);
    }
    out
}

} // verus!
