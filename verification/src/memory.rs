use vstd::prelude::*;
use x86_64::structures::paging::{PhysFrame, Size4KiB};
use x86_64::PhysAddr;

verus! {

/// Bytes in a frame.
pub const FRAME_SIZE: u64 = 4096;
/// Physical addresses are below this.
pub const PHYS_LIMIT: u64 = 0x10_0000_0000_0000;

/// A region of the boot memory map: `[StartAddr, EndAddr)` and whether it is free for use.
#[derive(Clone, Copy, Debug, PartialEq, Eq, Structural)]
pub struct MemoryRegion {
    pub StartAddr: u64,
    pub EndAddr: u64,
    pub Usable: bool,
}

/// Hands out the usable frames of the boot memory map one after the other.
pub struct BootInfoFrameAllocator {
    pub Regions: Vec<MemoryRegion>,
    pub Next: usize,
}

/// Frames that a region gives: one every 4096 bytes from its start, for usable regions.
pub open spec fn frame_count(r: MemoryRegion) -> int {
    if r.Usable && r.EndAddr > r.StartAddr { (r.EndAddr - r.StartAddr + 4095) / 4096 } else { 0 }
}

/// The addresses that the usable regions give, in order: each region's start, then every
/// 4096 bytes while below its end.
pub open spec fn usable_frames(rs: Seq<MemoryRegion>) -> Seq<int>
    decreases rs.len(),
{
    if rs.len() == 0 {
        seq![]
    } else {
        let r = rs.last();
        usable_frames(rs.drop_last()) + Seq::new(frame_count(r) as nat, |i: int| r.StartAddr + 4096 * i)
    }
}

/// The start of the frame that holds `addr`.
pub open spec fn frame_start(addr: int) -> int {
    addr - addr % 4096
}

/// `PhysFrame::<Size4KiB>::containing_address(PhysAddr::new(Address))`, given by the frame's
/// start address: `Address` rounded down to a multiple of 4096 (`PhysAddr::align_down`).
/// `PhysAddr::new` panics at and above 2^52, which `requires` leaves out.
#[verifier::external_body]
fn containing_frame_start(Address: u64) -> (Start: u64)
    requires
        Address < PHYS_LIMIT,
    ensures
        Start == frame_start(Address as int),
{
    PhysFrame::<Size4KiB>::containing_address(PhysAddr::new(Address)).start_address().as_u64()
}

proof fn lemma_usable_frames_prefix(rs: Seq<MemoryRegion>, j: int)
    requires
        0 <= j <= rs.len(),
    ensures
        usable_frames(rs.subrange(0, j)).len() <= usable_frames(rs).len(),
        forall|k: int|
            0 <= k < usable_frames(rs.subrange(0, j)).len() ==> #[trigger] usable_frames(rs.subrange(0, j))[k]
                == usable_frames(rs)[k],
    decreases rs.len() - j,
{
    if j == rs.len() {
        assert(rs.subrange(0, j) =~= rs);
    } else {
        lemma_usable_frames_prefix(rs, j + 1);
        assert(rs.subrange(0, j + 1).drop_last() =~= rs.subrange(0, j));
        let a = usable_frames(rs.subrange(0, j));
        let b = usable_frames(rs.subrange(0, j + 1));
        assert forall|k: int| 0 <= k < a.len() implies #[trigger] a[k] == usable_frames(rs)[k] by {
            assert(a[k] == b[k]);
        }
    }
}

impl BootInfoFrameAllocator {
    /// An allocator over `Regions` that has handed out nothing yet.
    pub fn Init(Regions: Vec<MemoryRegion>) -> (a: Self)
        ensures
            a.Regions@ == Regions@,
            a.Next == 0,
    {
        BootInfoFrameAllocator { Regions, Next: 0 }
    }

    /// The frame of the `Next`-th usable address, and `Next` one further; `None` once the
    /// usable addresses are used up.
    pub fn allocate_frame(&mut self) -> (r: Option<u64>)
        requires
            old(self).Next < usize::MAX,
            forall|k: int|
                0 <= k <= old(self).Next && k < usable_frames(old(self).Regions@).len()
                    ==> #[trigger] usable_frames(old(self).Regions@)[k] < PHYS_LIMIT,
        ensures
            final(self).Regions == old(self).Regions,
            final(self).Next == old(self).Next + 1,
            ({
                let frames = usable_frames(old(self).Regions@);
                if old(self).Next < frames.len() {
                    r == Some(frame_start(frames[old(self).Next as int]) as u64)
                } else {
                    r is None
                }
            }),
    {
        let ghost rs = self.Regions@;
        let ghost frames = usable_frames(rs);
        let mut Remaining: usize = self.Next;
        let mut i: usize = 0;
        while i < self.Regions.len()
            invariant
                rs == self.Regions@,
                frames == usable_frames(rs),
                i <= rs.len(),
                self.Next < usize::MAX,
                self.Next == old(self).Next,
                self.Regions == old(self).Regions,
                Remaining as int == self.Next - usable_frames(rs.subrange(0, i as int)).len(),
                usable_frames(rs.subrange(0, i as int)).len() <= self.Next,
                forall|k: int|
                    0 <= k <= self.Next && k < frames.len() ==> #[trigger] frames[k] < PHYS_LIMIT,
            decreases rs.len() - i,
        {
            let Region = self.Regions[i];
            proof {
                assert(rs.subrange(0, i + 1).drop_last() =~= rs.subrange(0, i as int));
                lemma_usable_frames_prefix(rs, i + 1);
            }
            if Region.Usable && Region.EndAddr > Region.StartAddr {
                let Span = Region.EndAddr - Region.StartAddr;
                let Count: u64 = Span / 4096 + if Span % 4096 != 0 { 1u64 } else { 0u64 };
                assert(Count == frame_count(Region));
                if (Remaining as u64) < Count {
                    let ghost k = self.Next as int;
                    let ghost before = usable_frames(rs.subrange(0, i as int)).len();
                    assert(usable_frames(rs.subrange(0, i + 1))[k] == Region.StartAddr + 4096 * (k - before));
                    assert(Remaining * 4096 < Span) by (nonlinear_arith)
                        requires
                            Remaining < Count,
                            Count == Span / 4096 + if Span % 4096 != 0 { 1int } else { 0int },
                    ;
                    let Address: u64 = Region.StartAddr + (Remaining as u64) * 4096;
                    assert(frames[k] == Address);
                    let Start = containing_frame_start(Address);
                    self.Next = self.Next + 1;
                    return Some(Start);
                }
                Remaining = Remaining - Count as usize;
            }
            i = i + 1;
        }
        assert(rs.subrange(0, rs.len() as int) =~= rs);
        self.Next = self.Next + 1;
        None
    }

    /// Whether every usable address up to number `Next` (those `allocate_frame` passes
    /// through) is below 2^52.
    pub fn ReachedFramesBelowLimit(&self) -> (b: bool)
        ensures
            b == forall|k: int|
                0 <= k <= self.Next && k < usable_frames(self.Regions@).len()
                    ==> #[trigger] usable_frames(self.Regions@)[k] < PHYS_LIMIT,
    {
        let ghost rs = self.Regions@;
        let ghost frames = usable_frames(rs);
        let mut Seen: usize = 0;
        let mut i: usize = 0;
        while i < self.Regions.len()
            invariant
                rs == self.Regions@,
                frames == usable_frames(rs),
                i <= rs.len(),
                Seen == usable_frames(rs.subrange(0, i as int)).len(),
                Seen <= self.Next,
                forall|k: int| 0 <= k < Seen ==> #[trigger] frames[k] < PHYS_LIMIT,
            decreases rs.len() - i,
        {
            let Region = self.Regions[i];
            proof {
                assert(rs.subrange(0, i + 1).drop_last() =~= rs.subrange(0, i as int));
                lemma_usable_frames_prefix(rs, i + 1);
            }
            let ghost pre = usable_frames(rs.subrange(0, i + 1));
            if Region.Usable && Region.EndAddr > Region.StartAddr {
                let Span = Region.EndAddr - Region.StartAddr;
                let Count: u64 = Span / 4096 + if Span % 4096 != 0 { 1u64 } else { 0u64 };
                assert(Count == frame_count(Region));
                let Left: u64 = (self.Next - Seen) as u64;
                let Reached: u64 = if Count > Left { Left + 1 } else { Count };
                assert((Reached - 1) * 4096 < Span) by (nonlinear_arith)
                    requires
                        1 <= Reached <= Count,
                        Count == Span / 4096 + if Span % 4096 != 0 { 1int } else { 0int },
                ;
                let Last: u64 = Region.StartAddr + (Reached - 1) * 4096;
                assert(pre[Seen + Reached - 1] == Last);
                assert(frames[Seen + Reached - 1] == Last);
                if Last >= PHYS_LIMIT {
                    return false;
                }
                proof {
                    assert forall|k: int| 0 <= k < Seen + Reached implies #[trigger] frames[k] < PHYS_LIMIT by {
                        if k >= Seen {
                            assert(pre[k] == Region.StartAddr + 4096 * (k - Seen));
                            assert(frames[k] == pre[k]);
                        }
                    }
                }
                if Count > Left {
                    return true;
                }
                Seen = Seen + Count as usize;
            }
            i = i + 1;
        }
        assert(rs.subrange(0, rs.len() as int) =~= rs);
        true
    }
}

/// Every address the allocator hands out lies inside a usable region, a whole number of
/// frames past that region's start; and a usable region gives just enough frames to cover
/// it (the last one starts before its end, one more would not).
pub proof fn law_frames_inside_usable_regions(rs: Seq<MemoryRegion>)
    ensures
        forall|k: int| 0 <= k < usable_frames(rs).len() ==> exists|i: int| {
            &&& 0 <= i < rs.len()
            &&& rs[i].Usable
            &&& rs[i].StartAddr <= #[trigger] usable_frames(rs)[k] < rs[i].EndAddr
            &&& (usable_frames(rs)[k] - rs[i].StartAddr) % 4096 == 0
        },
        forall|i: int| 0 <= i < rs.len() && #[trigger] rs[i].Usable && rs[i].StartAddr < rs[i].EndAddr ==> {
            &&& 4096 * (frame_count(rs[i]) - 1) < rs[i].EndAddr - rs[i].StartAddr
            &&& rs[i].EndAddr - rs[i].StartAddr <= 4096 * frame_count(rs[i])
        },
    decreases rs.len(),
{
    assert forall|i: int| 0 <= i < rs.len() && #[trigger] rs[i].Usable && rs[i].StartAddr < rs[i].EndAddr implies {
        &&& 4096 * (frame_count(rs[i]) - 1) < rs[i].EndAddr - rs[i].StartAddr
        &&& rs[i].EndAddr - rs[i].StartAddr <= 4096 * frame_count(rs[i])
    } by {
        let span = rs[i].EndAddr - rs[i].StartAddr;
        assert(4096 * ((span + 4095) / 4096 - 1) < span && span <= 4096 * ((span + 4095) / 4096)) by (nonlinear_arith)
            requires
                span > 0,
        ;
    }
    if rs.len() > 0 {
        let p = rs.drop_last();
        let r = rs.last();
        law_frames_inside_usable_regions(p);
        let f = usable_frames(rs);
        let fp = usable_frames(p);
        let l = rs.len() - 1;
        assert(rs[l] == r);
        assert forall|k: int| 0 <= k < f.len() implies exists|i: int| {
            &&& 0 <= i < rs.len()
            &&& rs[i].Usable
            &&& rs[i].StartAddr <= #[trigger] f[k] < rs[i].EndAddr
            &&& (f[k] - rs[i].StartAddr) % 4096 == 0
        } by {
            if k < fp.len() {
                assert(f[k] == fp[k]);
                let i = choose|i: int| {
                    &&& 0 <= i < p.len()
                    &&& p[i].Usable
                    &&& p[i].StartAddr <= #[trigger] fp[k] < p[i].EndAddr
                    &&& (fp[k] - p[i].StartAddr) % 4096 == 0
                };
                assert(rs[i] == p[i]);
            } else {
                let j = k - fp.len();
                assert(f[k] == r.StartAddr + 4096 * j);
                assert(r.Usable && r.EndAddr > r.StartAddr);
                let span = r.EndAddr - r.StartAddr;
                assert(4096 * j < span) by (nonlinear_arith)
                    requires
                        0 <= j < (span + 4095) / 4096,
                        span > 0,
                ;
                assert((4096 * j) % 4096 == 0) by (nonlinear_arith)
                    requires
                        j >= 0,
                ;
                assert(rs[l].StartAddr <= f[k] < rs[l].EndAddr);
            }
        }
    }
}

} // verus!
