//! Decoder of the block structured trajectory format: a global header, then
//! per rank blocks of fixed-size atom slots, ranks interleaved block by
//! block. A rank's real atoms in a frame end with a slot whose type code is
//! the end-of-rank sentinel; the decoder then resumes the next rank where it
//! was left.
use vstd::prelude::*;

verus! {

/// Bytes of the global header record at the start of a file.
pub const GLOBAL_HEADER_BYTES: usize = 80;

/// Bytes of the id and type code that start every atom slot.
pub const ATOM_INFO_BYTES: u64 = 12;

/// Bytes of one optional three-component field of an atom slot.
pub const VECTOR_BYTES: u64 = 24;

/// Mask bit: slots hold a position.
pub const MASK_POSITION: u32 = 1;

/// Mask bit: slots hold a velocity.
pub const MASK_VELOCITY: u32 = 2;

/// Mask bit: slots hold a force.
pub const MASK_FORCE: u32 = 4;

/// Type code that ends a rank's real atoms within a frame.
pub const END_OF_RANK: i32 = -1;

/// Type code of a vacant site in reports; the same value as `END_OF_RANK`,
/// kept apart because it means something else.
pub const VACANCY_TYPE: i32 = -1;

/// Global header of a trajectory file, fields in file order.
#[derive(Clone, Copy, Debug, PartialEq, Eq, Structural)]
pub struct GlobalMetaData {
    pub self_size: u64,
    pub frame_meta_size: u64,
    pub block_atoms: u64,
    pub atoms_num: u64,
    pub atom_item_bytes: u64,
    pub mpi_ranks: u64,
    pub mask: u32,
    pub format_version: u32,
    pub global_header_size: u64,
    pub local_size: u64,
    pub frames: u32,
}

/// Bit patterns of the three little-endian `f64` components of a vector.
#[derive(Clone, Copy, Debug, PartialEq, Eq, Structural)]
pub struct VectorBits {
    pub x: u64,
    pub y: u64,
    pub z: u64,
}

/// One decoded atom slot. The three-component fields hold the bit patterns
/// of little-endian `f64` values; a field absent from the mask stays zero.
#[derive(Clone, Copy, Debug, PartialEq, Eq, Structural)]
pub struct TypeAtom {
    pub id: u64,
    pub tp: i32,
    pub inter_type: i16,
    pub atom_location: VectorBits,
    pub atom_velocity: VectorBits,
    pub atom_force: VectorBits,
}

/// Element symbol of a type code: the vacancy tag, Fe, Cu, Ni, or Unknown.
pub open spec fn element_name(tp: i32) -> Seq<char> {
    if tp == VACANCY_TYPE {
        "V"@
    } else if tp == 0 {
        "Fe"@
    } else if tp == 1 {
        "Cu"@
    } else if tp == 2 {
        "Ni"@
    } else {
        "Unknown"@
    }
}

impl TypeAtom {
    /// Element symbol of the atom's type code.
    pub fn get_name_by_ele_name(&self) -> (r: &'static str)
        ensures
            r@ == element_name(self.tp),
    {
        if self.tp == VACANCY_TYPE {
            "V"
        } else if self.tp == 0 {
            "Fe"
        } else if self.tp == 1 {
            "Cu"
        } else if self.tp == 2 {
            "Ni"
        } else {
            "Unknown"
        }
    }
}

/// Reasons decoding stops.
#[derive(Clone, Copy, Debug, PartialEq, Eq, Structural)]
pub enum ParseError {
    /// The header is short or describes no usable layout.
    BadHeader,
    /// A slot lies beyond the end of the data.
    IoFailure,
    /// The format is not decoded by this crate.
    Unsupported,
}

/// Unsigned little-endian value of the four bytes at `off`.
pub open spec fn le_u32_at(s: Seq<u8>, off: int) -> int {
    s[off] as int + 0x100 * s[off + 1] as int + 0x1_0000 * s[off + 2] as int + 0x100_0000 * s[off + 3] as int
}

/// Unsigned little-endian value of the eight bytes at `off`.
pub open spec fn le_u64_at(s: Seq<u8>, off: int) -> int {
    le_u32_at(s, off) + 0x1_0000_0000 * le_u32_at(s, off + 4)
}

/// Two's complement value of the four little-endian bytes at `off`.
pub open spec fn le_i32_at(s: Seq<u8>, off: int) -> int {
    let u = le_u32_at(s, off);
    if u >= 0x8000_0000 {
        u - 0x1_0000_0000
    } else {
        u
    }
}

fn read_u32(data: &Vec<u8>, off: usize) -> (r: u32)
    requires
        off + 4 <= data@.len(),
        data@.len() <= usize::MAX,
    ensures
        r == le_u32_at(data@, off as int),
{
    data[off] as u32 + 0x100 * data[off + 1] as u32 + 0x1_0000 * data[off + 2] as u32 + 0x100_0000
        * data[off + 3] as u32
}

fn read_u64(data: &Vec<u8>, off: usize) -> (r: u64)
    requires
        off + 8 <= data@.len(),
        data@.len() <= usize::MAX,
    ensures
        r == le_u64_at(data@, off as int),
{
    let lo: u32 = read_u32(data, off);
    let hi: u32 = read_u32(data, off + 4);
    lo as u64 + 0x1_0000_0000 * hi as u64
}

fn read_i32(data: &Vec<u8>, off: usize) -> (r: i32)
    requires
        off + 4 <= data@.len(),
        data@.len() <= usize::MAX,
    ensures
        r == le_i32_at(data@, off as int),
{
    let u: u32 = read_u32(data, off);
    if u >= 0x8000_0000 {
        (u as i64 - 0x1_0000_0000) as i32
    } else {
        u as i32
    }
}

/// The header held by the first bytes of `s`.
pub open spec fn header_of(s: Seq<u8>) -> GlobalMetaData {
    GlobalMetaData {
        self_size: le_u64_at(s, 0) as u64,
        frame_meta_size: le_u64_at(s, 8) as u64,
        block_atoms: le_u64_at(s, 16) as u64,
        atoms_num: le_u64_at(s, 24) as u64,
        atom_item_bytes: le_u64_at(s, 32) as u64,
        mpi_ranks: le_u64_at(s, 40) as u64,
        mask: le_u32_at(s, 48) as u32,
        format_version: le_u32_at(s, 52) as u32,
        global_header_size: le_u64_at(s, 56) as u64,
        local_size: le_u64_at(s, 64) as u64,
        frames: le_u32_at(s, 72) as u32,
    }
}

/// Bytes of an atom slot under `mask`: id and type, then each field the
/// mask enables.
pub open spec fn item_bytes_for(mask: u32) -> int {
    ATOM_INFO_BYTES as int + (if mask & MASK_POSITION != 0 { VECTOR_BYTES as int } else { 0 }) + (if mask
        & MASK_VELOCITY != 0 {
        VECTOR_BYTES as int
    } else {
        0
    }) + (if mask & MASK_FORCE != 0 {
        VECTOR_BYTES as int
    } else {
        0
    })
}

/// File offset of the first block of rank `r`: past the header, the frame
/// metadata, the ranks' local headers and the first blocks of lower ranks.
pub open spec fn rank_offset(h: GlobalMetaData, r: int) -> int {
    h.self_size + h.frames * h.frame_meta_size + h.mpi_ranks * h.local_size + r * (h.block_atoms
        * h.atom_item_bytes)
}

/// Bytes of the other ranks' blocks between two blocks of one rank.
pub open spec fn block_skip(h: GlobalMetaData) -> int {
    h.block_atoms * (h.mpi_ranks - 1) * h.atom_item_bytes
}

/// The header describes a layout the decoder can walk: at least one rank,
/// in-block indexes and rank numbers that fit in `u32`, a slot size that
/// matches the mask, and first blocks at offsets that fit in `u64`.
pub open spec fn header_ok(h: GlobalMetaData) -> bool {
    &&& 1 <= h.mpi_ranks <= u32::MAX
    &&& h.block_atoms <= u32::MAX
    &&& h.atom_item_bytes == item_bytes_for(h.mask)
    &&& forall|r: int| 0 <= r < h.mpi_ranks ==> #[trigger] rank_offset(h, r) <= u64::MAX
}

/// The atom with every field zero.
pub open spec fn zero_atom() -> TypeAtom {
    TypeAtom {
        id: 0,
        tp: 0,
        inter_type: 0,
        atom_location: VectorBits { x: 0, y: 0, z: 0 },
        atom_velocity: VectorBits { x: 0, y: 0, z: 0 },
        atom_force: VectorBits { x: 0, y: 0, z: 0 },
    }
}

/// The three `u64` words at `off`.
pub open spec fn vector_at(s: Seq<u8>, off: int) -> VectorBits {
    VectorBits { x: le_u64_at(s, off) as u64, y: le_u64_at(s, off + 8) as u64, z: le_u64_at(s, off + 16) as u64 }
}

/// The atom held by the slot at `start` under `mask`: id and type code, then
/// position, velocity and force in that order, each present when its mask
/// bit is set.
pub open spec fn slot_atom(s: Seq<u8>, start: int, mask: u32) -> TypeAtom {
    let loc = start + ATOM_INFO_BYTES;
    let vel = loc + if mask & MASK_POSITION != 0 { VECTOR_BYTES as int } else { 0 };
    let force = vel + if mask & MASK_VELOCITY != 0 { VECTOR_BYTES as int } else { 0 };
    TypeAtom {
        id: le_u64_at(s, start) as u64,
        tp: le_i32_at(s, start + 8) as i32,
        inter_type: 0,
        atom_location: if mask & MASK_POSITION != 0 { vector_at(s, loc) } else { VectorBits { x: 0, y: 0, z: 0 } },
        atom_velocity: if mask & MASK_VELOCITY != 0 { vector_at(s, vel) } else { VectorBits { x: 0, y: 0, z: 0 } },
        atom_force: if mask & MASK_FORCE != 0 { vector_at(s, force) } else { VectorBits { x: 0, y: 0, z: 0 } },
    }
}

fn read_vector(data: &Vec<u8>, off: usize) -> (r: VectorBits)
    requires
        off + 24 <= data@.len(),
        data@.len() <= usize::MAX,
    ensures
        r == vector_at(data@, off as int),
{
    VectorBits { x: read_u64(data, off), y: read_u64(data, off + 8), z: read_u64(data, off + 16) }
}

/// Decodes the slot at `start`.
fn decode_slot(data: &Vec<u8>, start: usize, mask: u32) -> (r: TypeAtom)
    requires
        start + item_bytes_for(mask) <= data@.len(),
        data@.len() <= usize::MAX,
    ensures
        r == slot_atom(data@, start as int, mask),
{
    let mut atom = TypeAtom {
        id: read_u64(data, start),
        tp: read_i32(data, start + 8),
        inter_type: 0,
        atom_location: VectorBits { x: 0, y: 0, z: 0 },
        atom_velocity: VectorBits { x: 0, y: 0, z: 0 },
        atom_force: VectorBits { x: 0, y: 0, z: 0 },
    };
    let mut cursor: usize = start + 12;
    if mask & MASK_POSITION != 0 {
        atom.atom_location = read_vector(data, cursor);
        cursor = cursor + 24;
    }
    if mask & MASK_VELOCITY != 0 {
        atom.atom_velocity = read_vector(data, cursor);
        cursor = cursor + 24;
    }
    if mask & MASK_FORCE != 0 {
        atom.atom_force = read_vector(data, cursor);
    }
    atom
}

/// Where a decoder stands: file position, active rank and its index within
/// the current block, each rank's stored position and index, and the frame
/// to come.
pub struct WalkState {
    pub file_pos: int,
    pub cur_rank: int,
    pub cur_index_in_block: int,
    pub cursors: Seq<(u64, u32)>,
    pub next_frame: int,
}

/// Where the next slot is read: past the other ranks' blocks when the
/// current block is used up.
pub open spec fn slot_start(h: GlobalMetaData, s: WalkState) -> int {
    if s.cur_index_in_block >= h.block_atoms {
        s.file_pos + block_skip(h)
    } else {
        s.file_pos
    }
}

/// Index within the block once the next slot is read.
pub open spec fn index_after(h: GlobalMetaData, s: WalkState) -> int {
    if s.cur_index_in_block >= h.block_atoms {
        1
    } else {
        s.cur_index_in_block + 1
    }
}

/// Position just past the next slot.
pub open spec fn slot_end(h: GlobalMetaData, s: WalkState) -> int {
    slot_start(h, s) + h.atom_item_bytes
}

/// One slot read: `None` when the slot lies beyond the data. A real atom
/// keeps the rank and gives `true`. The sentinel stores the active rank's
/// cursor just past it, makes the following rank in ring order active at its
/// stored cursor, and gives `false` when the ring wraps: the frame is over.
pub open spec fn walk_step(h: GlobalMetaData, data: Seq<u8>, s: WalkState) -> Option<(WalkState, bool)> {
    let start = slot_start(h, s);
    let end = slot_end(h, s);
    if end > data.len() {
        None
    } else if slot_atom(data, start, h.mask).tp != END_OF_RANK {
        Some((WalkState { file_pos: end, cur_index_in_block: index_after(h, s), ..s }, true))
    } else {
        let cursors = s.cursors.update(s.cur_rank, (end as u64, index_after(h, s) as u32));
        let next = (s.cur_rank + 1) % (h.mpi_ranks as int);
        Some(
            (
                WalkState {
                    file_pos: cursors[next].0 as int,
                    cur_rank: next,
                    cur_index_in_block: cursors[next].1 as int,
                    cursors,
                    next_frame: s.next_frame,
                },
                s.cur_rank + 1 < h.mpi_ranks,
            ),
        )
    }
}

/// A state a decoder over a usable header can be in.
pub open spec fn walk_ok(h: GlobalMetaData, s: WalkState) -> bool {
    header_ok(h) && 0 <= s.cur_rank < h.mpi_ranks && s.cursors.len() == h.mpi_ranks
}

/// Bytes left after the position, 0 when it lies beyond the data.
pub open spec fn bytes_left(data: Seq<u8>, s: WalkState) -> int {
    if s.file_pos <= data.len() {
        data.len() - s.file_pos
    } else {
        0
    }
}

/// State once the next frame starts: rank 0 active at its stored cursor;
/// unchanged once every frame of the header has started.
pub open spec fn advance(h: GlobalMetaData, s: WalkState) -> WalkState {
    if s.next_frame >= h.frames {
        s
    } else {
        WalkState {
            file_pos: s.cursors[0].0 as int,
            cur_rank: 0,
            cur_index_in_block: s.cursors[0].1 as int,
            cursors: s.cursors,
            next_frame: s.next_frame + 1,
        }
    }
}

/// State of a decoder just made over `data`: past the header, rank 0
/// active, every rank at the first slot of its first block, no frame started.
pub open spec fn start_state(data: Seq<u8>) -> WalkState {
    let h = header_of(data);
    WalkState {
        file_pos: GLOBAL_HEADER_BYTES as int,
        cur_rank: 0,
        cur_index_in_block: 0,
        cursors: Seq::new(h.mpi_ranks as nat, |i: int| (rank_offset(h, i) as u64, 0u32)),
        next_frame: 0,
    }
}

/// Proof that a step within a frame either moves forward in the active
/// rank, within the data, or moves to the following rank.
pub proof fn lemma_step_progresses(h: GlobalMetaData, data: Seq<u8>, s: WalkState)
    requires
        walk_ok(h, s),
        walk_step(h, data, s) is Some,
        walk_step(h, data, s)->Some_0.1,
    ensures
        ({
            let t = walk_step(h, data, s)->Some_0.0;
            &&& walk_ok(h, t)
            &&& t.cur_rank > s.cur_rank || (t.cur_rank == s.cur_rank && bytes_left(data, t) < bytes_left(
                data,
                s,
            ))
        }),
{
    let t = walk_step(h, data, s)->Some_0.0;
    assert(h.atom_item_bytes >= 12);
    if slot_atom(data, slot_start(h, s), h.mask).tp == END_OF_RANK {
        vstd::arithmetic::div_mod::lemma_small_mod((s.cur_rank + 1) as nat, h.mpi_ranks as nat);
    } else {
        if h.block_atoms * (h.mpi_ranks - 1) * h.atom_item_bytes < 0 {
            assert(false) by (nonlinear_arith)
                requires
                    h.block_atoms >= 0,
                    h.mpi_ranks >= 1,
                    h.atom_item_bytes >= 0,
                    h.block_atoms * (h.mpi_ranks - 1) * h.atom_item_bytes < 0,
            ;
        }
    }
}

/// Decoding state over the bytes of one trajectory file: the frame to come,
/// the active rank with its file position and index within the current
/// block, and for every rank the position and index where it was left.
pub struct BinaryParserV2 {
    pub next_frame: u32,
    pub cur_rank: u32,
    pub cur_index_in_block: u32,
    pub rank_start_offset: Vec<(u64, u32)>,
    pub atom: TypeAtom,
    pub global_header: GlobalMetaData,
    pub data: Vec<u8>,
    pub file_pos: u64,
}

impl BinaryParserV2 {
    /// The header is usable, there is one cursor per rank, and the active
    /// rank is one of them.
    pub open spec fn wf(&self) -> bool {
        &&& header_ok(self.global_header)
        &&& self.data@.len() <= usize::MAX
        &&& self.rank_start_offset@.len() == self.global_header.mpi_ranks
        &&& self.cur_rank < self.global_header.mpi_ranks
    }

    /// The walking state: position, active rank, index in block, the
    /// ranks' cursors and the frame to come.
    pub open spec fn walk_state(&self) -> WalkState {
        WalkState {
            file_pos: self.file_pos as int,
            cur_rank: self.cur_rank as int,
            cur_index_in_block: self.cur_index_in_block as int,
            cursors: self.rank_start_offset@,
            next_frame: self.next_frame as int,
        }
    }

    /// Decodes the next slot of the active rank and moves past it.
    ///
    /// A real atom keeps the rank active and gives `Ok(true)`. The sentinel
    /// stores the active rank's cursor, makes the following rank active at
    /// its stored cursor, and gives `Ok(false)` when the ring wraps, which
    /// ends the frame. A slot beyond the data gives `IoFailure` and changes
    /// nothing.
    pub fn next_atom(&mut self) -> (r: Result<bool, ParseError>)
        requires
            old(self).wf(),
        ensures
            final(self).wf(),
            final(self).data == old(self).data,
            final(self).global_header == old(self).global_header,
            final(self).next_frame == old(self).next_frame,
            match walk_step(old(self).global_header, old(self).data@, old(self).walk_state()) {
                None => r == Err::<bool, ParseError>(ParseError::IoFailure) && *final(self) == *old(self),
                Some((t, more)) => {
                    &&& r == Ok::<bool, ParseError>(more)
                    &&& final(self).walk_state() == t
                    &&& final(self).atom == slot_atom(
                        old(self).data@,
                        slot_start(old(self).global_header, old(self).walk_state()),
                        old(self).global_header.mask,
                    )
                },
            },
    {
        let h = self.global_header;
        let item: u64 = h.atom_item_bytes;
        let mut start: u128 = self.file_pos as u128;
        let mut index: u32 = self.cur_index_in_block;
        if index as u64 >= h.block_atoms {
            assert(h.block_atoms * (h.mpi_ranks - 1) <= 0xffff_ffff_0000_0001) by (nonlinear_arith)
                requires
                    h.block_atoms <= 0xffff_ffff,
                    1 <= h.mpi_ranks <= 0xffff_ffff,
            ;
            assert(item_bytes_for(h.mask) <= 84);
            assert(h.block_atoms * (h.mpi_ranks - 1) * item <= 0xffff_ffff_0000_0001 * 84) by (nonlinear_arith)
                requires
                    h.block_atoms * (h.mpi_ranks - 1) <= 0xffff_ffff_0000_0001,
                    h.block_atoms * (h.mpi_ranks - 1) >= 0,
                    0 <= item <= 84,
            ;
            let skip: u128 = h.block_atoms as u128 * (h.mpi_ranks - 1) as u128 * item as u128;
            start = start + skip;
            index = 0;
        }
        index = index + 1;
        let len: usize = self.data.len();
        if start + item as u128 > len as u128 {
            return Err(ParseError::IoFailure);
        }
        let atom = decode_slot(&self.data, start as usize, h.mask);
        self.atom = atom;
        let end: u64 = (start + item as u128) as u64;
        if atom.tp == END_OF_RANK {
            let rank: u32 = self.cur_rank;
            self.rank_start_offset[rank as usize] = (end, index);
            let next: u32 = ((rank as u64 + 1) % h.mpi_ranks) as u32;
            self.cur_rank = next;
            let (offset, in_block) = self.rank_start_offset[next as usize];
            self.file_pos = offset;
            self.cur_index_in_block = in_block;
            Ok((rank as u64) + 1 < h.mpi_ranks)
        } else {
            self.file_pos = end;
            self.cur_index_in_block = index;
            Ok(true)
        }
    }

    /// Starts the next frame at rank 0's stored cursor; `false`, with nothing
    /// changed, once every frame of the header has been started.
    pub fn advance_frame(&mut self) -> (r: bool)
        requires
            old(self).wf(),
        ensures
            final(self).wf(),
            final(self).walk_state() == advance(old(self).global_header, old(self).walk_state()),
            r == (old(self).next_frame < old(self).global_header.frames),
            !r ==> *final(self) == *old(self),
            r ==> {
                &&& final(self).next_frame == old(self).next_frame + 1
                &&& final(self).cur_rank == 0
                &&& final(self).file_pos == old(self).rank_start_offset@[0].0
                &&& final(self).cur_index_in_block == old(self).rank_start_offset@[0].1
                &&& final(self).rank_start_offset == old(self).rank_start_offset
                &&& final(self).atom == old(self).atom
                &&& final(self).data == old(self).data
                &&& final(self).global_header == old(self).global_header
            },
    {
        if self.next_frame >= self.global_header.frames {
            return false;
        }
        self.cur_rank = 0;
        let (offset, in_block) = self.rank_start_offset[0];
        self.file_pos = offset;
        self.cur_index_in_block = in_block;
        self.next_frame = self.next_frame + 1;
        true
    }

    /// Number of frames the header announces.
    pub fn frame_count(&self) -> (r: u32)
        ensures
            r == self.global_header.frames,
    {
        self.global_header.frames
    }

    /// The atom decoded by the last call of `next_atom`.
    pub fn current_atom(&self) -> (r: TypeAtom)
        ensures
            r == self.atom,
    {
        self.atom
    }
}

/// Reads the global header from the first bytes of `data` and sets every
/// rank's cursor at the first slot of its first block.
pub fn make_parser(data: Vec<u8>) -> (r: Result<BinaryParserV2, ParseError>)
    ensures
        data@.len() < GLOBAL_HEADER_BYTES ==> r == Err::<BinaryParserV2, ParseError>(ParseError::BadHeader),
        data@.len() >= GLOBAL_HEADER_BYTES && !header_ok(header_of(data@)) ==> r == Err::<
            BinaryParserV2,
            ParseError,
        >(ParseError::BadHeader),
        data@.len() >= GLOBAL_HEADER_BYTES && header_ok(header_of(data@)) ==> r is Ok,
        r is Ok ==> {
            let p = r->Ok_0;
            let h = header_of(data@);
            &&& p.wf()
            &&& p.global_header == h
            &&& p.data@ == data@
            &&& p.walk_state() == start_state(data@)
            &&& p.atom == zero_atom()
        },
{
    let len: usize = data.len();
    if len < GLOBAL_HEADER_BYTES {
        return Err(ParseError::BadHeader);
    }
    let h = GlobalMetaData {
        self_size: read_u64(&data, 0),
        frame_meta_size: read_u64(&data, 8),
        block_atoms: read_u64(&data, 16),
        atoms_num: read_u64(&data, 24),
        atom_item_bytes: read_u64(&data, 32),
        mpi_ranks: read_u64(&data, 40),
        mask: read_u32(&data, 48),
        format_version: read_u32(&data, 52),
        global_header_size: read_u64(&data, 56),
        local_size: read_u64(&data, 64),
        frames: read_u32(&data, 72),
    };
    assert(h == header_of(data@));
    if h.mpi_ranks == 0 || h.mpi_ranks > 0xffff_ffff || h.block_atoms > 0xffff_ffff {
        return Err(ParseError::BadHeader);
    }
    let mut expected: u64 = ATOM_INFO_BYTES;
    if h.mask & MASK_POSITION != 0 {
        expected = expected + VECTOR_BYTES;
    }
    if h.mask & MASK_VELOCITY != 0 {
        expected = expected + VECTOR_BYTES;
    }
    if h.mask & MASK_FORCE != 0 {
        expected = expected + VECTOR_BYTES;
    }
    if h.atom_item_bytes != expected {
        return Err(ParseError::BadHeader);
    }
    assert(h.frames as int * h.frame_meta_size as int <= 0xffff_ffff * 0xffff_ffff_ffff_ffff) by (nonlinear_arith)
        requires
            h.frames <= 0xffff_ffff,
            h.frame_meta_size <= 0xffff_ffff_ffff_ffff,
    ;
    assert(h.mpi_ranks as int * h.local_size as int <= 0xffff_ffff * 0xffff_ffff_ffff_ffff) by (nonlinear_arith)
        requires
            h.mpi_ranks <= 0xffff_ffff,
            h.local_size <= 0xffff_ffff_ffff_ffff,
    ;
    let base: u128 = h.self_size as u128 + h.frames as u128 * h.frame_meta_size as u128 + h.mpi_ranks as u128
        * h.local_size as u128;
    assert(h.atom_item_bytes <= 84);
    assert(h.block_atoms as int * h.atom_item_bytes as int <= 0xffff_ffff * 84) by (nonlinear_arith)
        requires
            h.block_atoms <= 0xffff_ffff,
            h.atom_item_bytes <= 84,
    ;
    let stride: u128 = h.block_atoms as u128 * h.atom_item_bytes as u128;
    assert(stride <= 0xffff_ffff * 84) by (nonlinear_arith)
        requires
            stride == h.block_atoms as int * h.atom_item_bytes as int,
            h.block_atoms <= 0xffff_ffff,
            h.atom_item_bytes <= 84,
    ;
    let mut offsets: Vec<(u64, u32)> = Vec::new();
    let mut r: u64 = 0;
    while r < h.mpi_ranks
        invariant
            h == header_of(data@),
            1 <= h.mpi_ranks <= 0xffff_ffff,
            r <= h.mpi_ranks,
            base == h.self_size + h.frames * h.frame_meta_size + h.mpi_ranks * h.local_size,
            base <= 0x4_0000_0000_0000_0000_0000_0000,
            stride == h.block_atoms * h.atom_item_bytes,
            stride <= 0xffff_ffff * 84,
            offsets@ == Seq::new(r as nat, |i: int| (rank_offset(h, i) as u64, 0u32)),
            forall|i: int| 0 <= i < r ==> #[trigger] rank_offset(h, i) <= u64::MAX,
        decreases h.mpi_ranks - r,
    {
        assert(r as int * stride <= 0xffff_ffff * (0xffff_ffff * 84)) by (nonlinear_arith)
            requires
                r <= 0xffff_ffff,
                stride <= 0xffff_ffff * 84,
        ;
        let offset: u128 = base + r as u128 * stride;
        assert(offset == rank_offset(h, r as int)) by (nonlinear_arith)
            requires
                offset == base + r * stride,
                stride == h.block_atoms * h.atom_item_bytes,
                base == h.self_size + h.frames * h.frame_meta_size + h.mpi_ranks * h.local_size,
        ;
        if offset > 0xffff_ffff_ffff_ffff {
            return Err(ParseError::BadHeader);
        }
        offsets.push((offset as u64, 0));
        r = r + 1;
        assert(offsets@ =~= Seq::new(r as nat, |i: int| (rank_offset(h, i) as u64, 0u32)));
    }
    Ok(
        BinaryParserV2 {
            next_frame: 0,
            cur_rank: 0,
            cur_index_in_block: 0,
            rank_start_offset: offsets,
            atom: TypeAtom {
                id: 0,
                tp: 0,
                inter_type: 0,
                atom_location: VectorBits { x: 0, y: 0, z: 0 },
                atom_velocity: VectorBits { x: 0, y: 0, z: 0 },
                atom_force: VectorBits { x: 0, y: 0, z: 0 },
            },
            global_header: h,
            data,
            file_pos: GLOBAL_HEADER_BYTES as u64,
        },
    )
}

} // verus!
