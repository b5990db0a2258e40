use vstd::prelude::*;

verus! {

/// Bytes in the bus.
pub const SIZE: usize = 0x80;
/// The first bytes, one bit per byte of the bus, that tell which bytes are taken.
pub const MASK_BYTES: usize = 16;
/// Mask bytes that cover the mask itself.
pub const RESERVED_MASK_BYTES: usize = 2;

/// A byte-granular heap of `SIZE` bytes whose first `MASK_BYTES` bytes are its own
/// allocation bitmap: bit `b % 8` of byte `b / 8` is set when byte `b` is taken.
pub struct Bus {
    pub Bytes: Vec<u8>,
}

/// Whether bit `bit` of `x` is set.
pub open spec fn bit_set(x: u8, bit: u8) -> bool {
    x & (1u8 << bit) != 0
}

/// Whether byte `b` of the bus is marked as taken in `bytes`.
pub open spec fn taken(bytes: Seq<u8>, b: int) -> bool {
    bit_set(bytes[b / 8], (b % 8) as u8)
}

/// Every byte of `[start, start + len)` is free.
pub open spec fn range_free(bytes: Seq<u8>, start: int, len: int) -> bool {
    forall|b: int| start <= b < start + len ==> !#[trigger] taken(bytes, b)
}

/// Every byte of `[start, start + len)` is taken.
pub open spec fn range_taken(bytes: Seq<u8>, start: int, len: int) -> bool {
    forall|b: int| start <= b < start + len ==> #[trigger] taken(bytes, b)
}

/// The bus as `init` leaves it: the mask covers the mask, everything else is free and zero.
pub open spec fn initialized() -> Seq<u8> {
    Seq::new(128, |i: int| if i < 2 { 0xFFu8 } else { 0u8 })
}

/// The bus `malloc` works on: set up first unless its first byte says it already is.
pub open spec fn prepared(bytes: Seq<u8>) -> Seq<u8> {
    if bytes[0] != 0xFF { initialized() } else { bytes }
}

/// Bytes reserved for a request of `s`: the request itself up to 8, else rounded up to a
/// multiple of 8.
pub open spec fn reserve_size(s: int) -> int {
    if s <= 8 { s } else if s % 8 == 0 { s } else { s + (8 - s % 8) }
}

/// Distance between two start positions tried for a reservation of `r` bytes.
pub open spec fn step_size(r: int) -> int {
    if r <= 8 { 1 } else { 8 }
}

/// A start position tried for a reservation of `r` bytes.
pub open spec fn candidate(c: int, r: int) -> bool {
    MASK_BYTES <= c <= SIZE - r && (c - MASK_BYTES) % step_size(r) == 0
}

/// `after` is `before` with `[start, start + len)` marked as taken and nothing else changed.
pub open spec fn marked(before: Seq<u8>, after: Seq<u8>, start: int, len: int) -> bool {
    &&& after.len() == 128
    &&& forall|b: int| 0 <= b < 128 ==> #[trigger] taken(after, b) == (taken(before, b) || start <= b < start + len)
    &&& forall|i: int| 16 <= i < 128 ==> after[i] == before[i]
}

impl Bus {
    pub open spec fn wf(&self) -> bool {
        self.Bytes@.len() == SIZE
    }

    /// A bus of zero bytes, not set up yet.
    pub fn new() -> (b: Bus)
        ensures
            b.wf(),
            b.Bytes@ == Seq::new(128, |i: int| 0u8),
    {
        let mut Bytes: Vec<u8> = Vec::new();
        let mut k: usize = 0;
        while k < SIZE
            invariant
                k <= SIZE,
                Bytes@ == Seq::new(k as nat, |i: int| 0u8),
            decreases SIZE - k,
        {
            Bytes.push(0);
            k = k + 1;
        }
        Bus { Bytes }
    }
}

proof fn lemma_bit_or(x: u8, i: u8, j: u8)
    requires
        i < 8,
        j < 8,
    ensures
        bit_set(x | (1u8 << i), j) == (j == i || bit_set(x, j)),
{
    assert(((x | (1u8 << i)) & (1u8 << j) != 0) == (j == i || x & (1u8 << j) != 0)) by (bit_vector)
        requires
            i < 8,
            j < 8,
    ;
}

proof fn lemma_bits_of_constants(j: u8)
    requires
        j < 8,
    ensures
        bit_set(0xFFu8, j),
        !bit_set(0u8, j),
{
    assert(0xFFu8 & (1u8 << j) != 0) by (bit_vector)
        requires
            j < 8,
    ;
    assert(0u8 & (1u8 << j) == 0) by (bit_vector);
}

/// Zeroes the bus and marks the mask itself as taken.
pub fn init(Bus: &mut Bus)
    requires
        old(Bus).wf(),
    ensures
        final(Bus).wf(),
        final(Bus).Bytes@ == initialized(),
{
    let mut Index: usize = 0;
    while Index < RESERVED_MASK_BYTES
        invariant
            Bus.wf(),
            Index <= 2,
            forall|i: int| 0 <= i < Index ==> Bus.Bytes@[i] == 0xFFu8,
        decreases 2 - Index,
    {
        Bus.Bytes.set(Index, 0xFF);
        Index = Index + 1;
    }
    let mut Index: usize = RESERVED_MASK_BYTES;
    while Index < SIZE
        invariant
            Bus.wf(),
            2 <= Index <= 128,
            forall|i: int| 0 <= i < 2 ==> Bus.Bytes@[i] == 0xFFu8,
            forall|i: int| 2 <= i < Index ==> Bus.Bytes@[i] == 0u8,
        decreases 128 - Index,
    {
        Bus.Bytes.set(Index, 0);
        Index = Index + 1;
    }
    assert(Bus.Bytes@ =~= initialized());
}

/// Whether byte `ByteIndex` is marked as taken.
pub fn is_taken(Bus: &Bus, ByteIndex: usize) -> (b: bool)
    requires
        Bus.wf(),
        ByteIndex < SIZE,
    ensures
        b == taken(Bus.Bytes@, ByteIndex as int),
{
    let MaskByteIndex = ByteIndex / 8;
    let MaskBitIndex: u8 = (ByteIndex % 8) as u8;
    (Bus.Bytes[MaskByteIndex] & (1u8 << MaskBitIndex)) != 0
}

/// Whether every byte of `[Start, Start + Length)` is free.
pub fn range_is_free(Bus: &Bus, Start: usize, Length: usize) -> (free: bool)
    requires
        Bus.wf(),
        Start + Length <= SIZE,
    ensures
        free == range_free(Bus.Bytes@, Start as int, Length as int),
{
    let mut ByteIndex: usize = Start;
    while ByteIndex < Start + Length
        invariant
            Bus.wf(),
            Start + Length <= SIZE,
            Start <= ByteIndex <= Start + Length,
            range_free(Bus.Bytes@, Start as int, ByteIndex - Start),
        decreases Start + Length - ByteIndex,
    {
        if is_taken(Bus, ByteIndex) {
            return false;
        }
        ByteIndex = ByteIndex + 1;
    }
    true
}

/// Marks every byte of `[Start, Start + Length)` as taken.
pub fn mark_range(Bus: &mut Bus, Start: usize, Length: usize)
    requires
        old(Bus).wf(),
        MASK_BYTES <= Start,
        Start + Length <= SIZE,
    ensures
        final(Bus).wf(),
        marked(old(Bus).Bytes@, final(Bus).Bytes@, Start as int, Length as int),
{
    let ghost before = Bus.Bytes@;
    let mut ByteIndex: usize = Start;
    while ByteIndex < Start + Length
        invariant
            Bus.wf(),
            before.len() == 128,
            16 <= Start <= ByteIndex <= Start + Length <= SIZE,
            marked(before, Bus.Bytes@, Start as int, ByteIndex - Start),
        decreases Start + Length - ByteIndex,
    {
        let MaskByteIndex = ByteIndex / 8;
        let MaskBitIndex: u8 = (ByteIndex % 8) as u8;
        let ghost current = Bus.Bytes@;
        let Updated: u8 = Bus.Bytes[MaskByteIndex] | (1u8 << MaskBitIndex);
        Bus.Bytes.set(MaskByteIndex, Updated);
        proof {
            assert forall|b: int| 0 <= b < 128 implies #[trigger] taken(Bus.Bytes@, b) == (taken(before, b) || Start <= b < ByteIndex + 1) by {
                if b / 8 == MaskByteIndex as int {
                    lemma_bit_or(current[b / 8], MaskBitIndex, (b % 8) as u8);
                    assert(taken(current, b) == (taken(before, b) || Start <= b < ByteIndex));
                } else {
                    assert(Bus.Bytes@[b / 8] == current[b / 8]);
                    assert(taken(current, b) == (taken(before, b) || Start <= b < ByteIndex));
                }
            }
        }
        ByteIndex = ByteIndex + 1;
    }
}

/// Reserves bytes for a request of `s` bytes, first fit: requests up to 8 bytes may start at
/// any byte, larger ones are rounded up to a multiple of 8 and start at a multiple of 8.
/// The bus is set up first unless its first byte says it already is. Returns the start of
/// the reservation, or `None` for an empty request or when nothing fits.
pub fn malloc(Bus: &mut Bus, s: usize) -> (r: Option<usize>)
    requires
        old(Bus).wf(),
        reserve_size(s as int) <= usize::MAX,
    ensures
        final(Bus).wf(),
        s == 0 ==> r is None && final(Bus).Bytes@ == old(Bus).Bytes@,
        s > 0 ==> {
            let b0 = prepared(old(Bus).Bytes@);
            let rs = reserve_size(s as int);
            match r {
                Some(c) => {
                    &&& candidate(c as int, rs)
                    &&& range_free(b0, c as int, rs)
                    &&& forall|c2: int| candidate(c2, rs) && c2 < c ==> !range_free(b0, c2, rs)
                    &&& marked(b0, final(Bus).Bytes@, c as int, rs)
                },
                None => {
                    &&& forall|c2: int| candidate(c2, rs) ==> !range_free(b0, c2, rs)
                    &&& final(Bus).Bytes@ == b0
                },
            }
        },
{
    if s == 0 {
        return None;
    }
    if Bus.Bytes[0] != 0xFFu8 {
        init(Bus);
    }
    let ghost b0 = Bus.Bytes@;
    let SizeToReserve: usize = if s <= 8 {
        s
    } else {
        let Remainder = s % 8;
        if Remainder == 0 { s } else { s + (8 - Remainder) }
    };
    if SizeToReserve > SIZE - MASK_BYTES {
        return None;
    }
    let StepSize: usize = if SizeToReserve <= 8 { 1 } else { 8 };
    let mut CandidateStart: usize = MASK_BYTES;
    while CandidateStart <= SIZE - SizeToReserve
        invariant
            Bus.wf(),
            Bus.Bytes@ == b0,
            b0 == prepared(old(Bus).Bytes@),
            s > 0,
            SizeToReserve == reserve_size(s as int),
            1 <= SizeToReserve <= 112,
            StepSize == step_size(SizeToReserve as int),
            16 <= CandidateStart <= 128,
            (CandidateStart - 16) % (StepSize as int) == 0,
            forall|c2: int| candidate(c2, SizeToReserve as int) && c2 < CandidateStart ==> !range_free(b0, c2, SizeToReserve as int),
        decreases 128 - CandidateStart,
    {
        if range_is_free(Bus, CandidateStart, SizeToReserve) {
            mark_range(Bus, CandidateStart, SizeToReserve);
            return Some(CandidateStart);
        }
        CandidateStart = CandidateStart + StepSize;
    }
    proof {
        assert forall|c2: int| candidate(c2, SizeToReserve as int) implies !range_free(b0, c2, SizeToReserve as int) by {
            assert(c2 < CandidateStart);
        }
    }
    None
}

/// Why `setter` refused a write.
#[derive(Clone, Copy, Debug, PartialEq, Eq, Structural)]
pub enum SetterError {
    /// Nothing to write.
    ZeroSized,
    /// The write would run past the end of the bus.
    OutOfBounds,
    /// A byte of the target is not reserved.
    Unallocated,
}

/// Writes `Value` at `index` when every target byte is reserved; refuses an empty value, a
/// write past the end and a write to a byte that is not reserved, and changes nothing then.
pub fn setter(Bus: &mut Bus, Value: &[u8], index: usize) -> (r: Result<(), SetterError>)
    requires
        old(Bus).wf(),
    ensures
        final(Bus).wf(),
        r is Err ==> final(Bus).Bytes@ == old(Bus).Bytes@,
        Value@.len() == 0 <==> r matches Err(SetterError::ZeroSized),
        Value@.len() > 0 && index + Value@.len() > SIZE <==> r matches Err(SetterError::OutOfBounds),
        Value@.len() > 0 && index + Value@.len() <= SIZE && !range_taken(old(Bus).Bytes@, index as int, Value@.len() as int)
            <==> r matches Err(SetterError::Unallocated),
        r is Ok ==> final(Bus).Bytes@ == old(Bus).Bytes@.subrange(0, index as int) + Value@
            + old(Bus).Bytes@.subrange(index + Value@.len(), 128),
{
    let Size = Value.len();
    if Size == 0 {
        return Err(SetterError::ZeroSized);
    }
    if Size > SIZE || index > SIZE - Size {
        return Err(SetterError::OutOfBounds);
    }
    let mut ByteIndex: usize = index;
    while ByteIndex < index + Size
        invariant
            Bus.wf(),
            Bus.Bytes@ == old(Bus).Bytes@,
            Size == Value@.len(),
            Size > 0,
            index + Size <= SIZE,
            index <= ByteIndex <= index + Size,
            range_taken(Bus.Bytes@, index as int, ByteIndex - index),
        decreases index + Size - ByteIndex,
    {
        if !is_taken(Bus, ByteIndex) {
            return Err(SetterError::Unallocated);
        }
        ByteIndex = ByteIndex + 1;
    }
    let ghost before = Bus.Bytes@;
    let mut Offset: usize = 0;
    while Offset < Size
        invariant
            Bus.wf(),
            before.len() == 128,
            Size == Value@.len(),
            index + Size <= SIZE,
            Offset <= Size,
            Bus.Bytes@ == before.subrange(0, index as int) + Value@.subrange(0, Offset as int)
                + before.subrange(index + Offset, 128),
        decreases Size - Offset,
    {
        Bus.Bytes.set(index + Offset, Value[Offset]);
        assert(Bus.Bytes@ =~= before.subrange(0, index as int) + Value@.subrange(0, Offset + 1)
            + before.subrange(index + Offset + 1, 128));
        Offset = Offset + 1;
    }
    assert(Value@.subrange(0, Size as int) =~= Value@);
    Ok(())
}

/// The `Size` bytes at `index`.
pub fn getter(Bus: &Bus, index: usize, Size: usize) -> (Value: Vec<u8>)
    requires
        Bus.wf(),
        index + Size <= SIZE,
    ensures
        Value@ == Bus.Bytes@.subrange(index as int, index + Size),
{
    let mut Value: Vec<u8> = Vec::new();
    let mut Offset: usize = 0;
    while Offset < Size
        invariant
            Bus.wf(),
            index + Size <= SIZE,
            Offset <= Size,
            Value@ == Bus.Bytes@.subrange(index as int, index + Offset),
        decreases Size - Offset,
    {
        Value.push(Bus.Bytes[index + Offset]);
        assert(Value@ =~= Bus.Bytes@.subrange(index as int, index + Offset + 1));
        Offset = Offset + 1;
    }
    Value
}

proof fn lemma_full_byte(x: u8)
    requires
        forall|j: u8| j < 8 ==> #[trigger] bit_set(x, j),
    ensures
        x == 0xFFu8,
{
    assert(bit_set(x, 0) && bit_set(x, 1) && bit_set(x, 2) && bit_set(x, 3));
    assert(bit_set(x, 4) && bit_set(x, 5) && bit_set(x, 6) && bit_set(x, 7));
    assert(x == 0xFFu8) by (bit_vector)
        requires
            x & (1u8 << 0u8) != 0, x & (1u8 << 1u8) != 0, x & (1u8 << 2u8) != 0, x & (1u8 << 3u8) != 0,
            x & (1u8 << 4u8) != 0, x & (1u8 << 5u8) != 0, x & (1u8 << 6u8) != 0, x & (1u8 << 7u8) != 0,
    ;
}

/// The bus once prepared marks the bytes of the mask as taken.
proof fn lemma_prepared_mask(bytes: Seq<u8>)
    requires
        bytes.len() == 128,
    ensures
        prepared(bytes)[0] == 0xFFu8,
        prepared(bytes).len() == 128,
{
}

/// Write then read: after `setter` succeeds, `getter` at the same place gives back exactly
/// the bytes written.
pub proof fn law_read_after_write(before: Seq<u8>, value: Seq<u8>, index: int)
    requires
        before.len() == 128,
        0 <= index,
        index + value.len() <= 128,
    ensures
        (before.subrange(0, index) + value + before.subrange(index + value.len(), 128)).subrange(index, index + value.len())
            == value,
{
    assert((before.subrange(0, index) + value + before.subrange(index + value.len(), 128)).subrange(index, index + value.len())
        =~= value);
}

/// Reservations never overlap: what a second `malloc` returns lies outside what the first
/// one reserved.
pub proof fn law_reservations_disjoint(b1: Seq<u8>, b2: Seq<u8>, c1: int, r1: int, c2: int, r2: int)
    requires
        b1.len() == 128,
        marked(prepared(b1), b2, c1, r1),
        16 <= c1,
        c1 + r1 <= 128,
        0 <= c2,
        c2 + r2 <= 128,
        range_free(prepared(b2), c2, r2),
    ensures
        prepared(b2) == b2,
        c2 + r2 <= c1 || c1 + r1 <= c2 || r1 <= 0 || r2 <= 0,
{
    let b0 = prepared(b1);
    lemma_prepared_mask(b1);
    assert forall|j: u8| j < 8 implies #[trigger] bit_set(b2[0], j) by {
        lemma_bits_of_constants(j);
        assert(taken(b0, j as int));
        assert(taken(b2, j as int));
    }
    lemma_full_byte(b2[0]);
    if r1 > 0 && r2 > 0 && !(c2 + r2 <= c1 || c1 + r1 <= c2) {
        let b = if c1 <= c2 { c2 } else { c1 };
        assert(taken(b2, b));
        assert(!taken(b2, b));
    }
}

/// What `malloc` reserves can be written: every byte of the reservation is taken.
pub proof fn law_reservation_writable(b1: Seq<u8>, b2: Seq<u8>, c: int, r: int, index: int, len: int)
    requires
        marked(prepared(b1), b2, c, r),
        c <= index,
        index + len <= c + r,
        0 <= c,
        c + r <= 128,
    ensures
        range_taken(b2, index, len),
{
    assert forall|b: int| index <= b < index + len implies #[trigger] taken(b2, b) by {
        assert(0 <= b < 128);
    }
}

/// Where a reservation may start: anywhere in the data part for up to 8 bytes; for more, the
/// size is a multiple of 8 (the request rounded up, by less than 8) and the start is a
/// multiple of 8 past the mask, so `malloc`'s first fit is the lowest free such start.
pub proof fn law_reservation_alignment(s: int, c: int)
    requires
        s > 0,
    ensures
        s <= 8 ==> reserve_size(s) == s,
        s > 8 ==> reserve_size(s) % 8 == 0 && s <= reserve_size(s) < s + 8,
        candidate(c, reserve_size(s)) == (MASK_BYTES <= c <= SIZE - reserve_size(s)
            && (reserve_size(s) > 8 ==> (c - MASK_BYTES) % 8 == 0)),
{
}

} // verus!
