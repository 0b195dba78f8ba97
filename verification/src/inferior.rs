//! The bookkeeping of a debugger that controls a traced child process:
//! word alignment of addresses, patching one byte of a memory word (how a
//! breakpoint instruction is planted and removed), the table of planted
//! breakpoints, and the decisions taken when the child is resumed.
use vstd::prelude::*;
use std::collections::HashMap;

verus! {

broadcast use vstd::std_specs::hash::group_hash_axioms;

/// The number of the trap signal that a breakpoint or a single step raises.
pub const SIGTRAP: i32 = 5;

/// The byte of the x86 breakpoint instruction `int3`.
pub const TRAP_INSTRUCTION: u8 = 0xCC;

/// How the traced child stands after a wait.
#[derive(Debug, Clone, Copy, PartialEq, Eq)]
pub enum Status {
    /// Stopped by a signal, at an instruction pointer.
    Stopped(i32, usize),
    /// Exited normally, with an exit code.
    Exited(i32),
    /// Killed by a signal.
    Signaled(i32),
}

/// The size of a machine word in bytes.
pub open spec fn word_size() -> nat {
    vstd::layout::size_of::<usize>()
}

/// Rounds `addr` down to the start of the machine word that holds it.
pub fn align_addr_to_word(addr: usize) -> (r: usize)
    ensures
        r == addr - (addr as int) % (word_size() as int),
        (r as int) % (word_size() as int) == 0,
        addr - r < word_size(),
{
    broadcast use vstd::layout::layout_of_primitives;

    let w = core::mem::size_of::<usize>();
    assert(w == 4 || w == 8);
    let mask: usize = !(w - 1);
    let r = addr & mask;
    if w == 8 {
        assert(mask == !7usize);
        assert(r == addr - addr % 8 && r % 8 == 0) by (bit_vector)
            requires
                mask == !7usize,
                r == addr & mask,
        ;
    } else {
        assert(mask == !3usize);
        assert(r == addr - addr % 4 && r % 4 == 0) by (bit_vector)
            requires
                mask == !3usize,
                r == addr & mask,
        ;
    }
    r
}

/// Byte `i` of `word`, counting from the least significant.
pub open spec fn byte_at(word: u64, i: u64) -> u64 {
    (word >> (i * 8)) & 0xff
}

proof fn lemma_patch_byte(word: u64, off: u64, val: u64, j: u64)
    by (bit_vector)
    requires
        off < 8,
        j < 8,
        val < 256,
    ensures
        (((word & !(0xffu64 << (off * 8))) | (val << (off * 8))) >> (j * 8)) & 0xff == if j
            == off {
            val
        } else {
            (word >> (j * 8)) & 0xff
        },
{
}

proof fn lemma_bytes_determine_word(a: u64, b: u64)
    by (bit_vector)
    requires
        (a >> 0u64) & 0xff == (b >> 0u64) & 0xff,
        (a >> 8u64) & 0xff == (b >> 8u64) & 0xff,
        (a >> 16u64) & 0xff == (b >> 16u64) & 0xff,
        (a >> 24u64) & 0xff == (b >> 24u64) & 0xff,
        (a >> 32u64) & 0xff == (b >> 32u64) & 0xff,
        (a >> 40u64) & 0xff == (b >> 40u64) & 0xff,
        (a >> 48u64) & 0xff == (b >> 48u64) & 0xff,
        (a >> 56u64) & 0xff == (b >> 56u64) & 0xff,
    ensures
        a == b,
{
}

/// Two words with the same eight bytes are the same word.
pub proof fn lemma_word_from_bytes(a: u64, b: u64)
    requires
        forall|j: u64| j < 8 ==> byte_at(a, j) == byte_at(b, j),
    ensures
        a == b,
{
    assert(byte_at(a, 0) == byte_at(b, 0));
    assert(byte_at(a, 1) == byte_at(b, 1));
    assert(byte_at(a, 2) == byte_at(b, 2));
    assert(byte_at(a, 3) == byte_at(b, 3));
    assert(byte_at(a, 4) == byte_at(b, 4));
    assert(byte_at(a, 5) == byte_at(b, 5));
    assert(byte_at(a, 6) == byte_at(b, 6));
    assert(byte_at(a, 7) == byte_at(b, 7));
    lemma_bytes_determine_word(a, b);
}

/// `word` with byte `off` replaced by `val`.
pub open spec fn patched(word: u64, off: u64, val: u64) -> u64 {
    (word & !(0xffu64 << ((off * 8) as u64))) | (val << ((off * 8) as u64))
}

/// Replaces byte `byte_offset` of `word` with `val`; gives the new word and
/// the byte that was there before.
pub fn patch_word(word: u64, byte_offset: usize, val: u8) -> (r: (u64, u8))
    requires
        byte_offset < 8,
    ensures
        r.0 == patched(word, byte_offset as u64, val as u64),
        r.1 == byte_at(word, byte_offset as u64),
        byte_at(r.0, byte_offset as u64) == val,
        forall|j: u64| j < 8 && j != byte_offset ==> byte_at(r.0, j) == byte_at(word, j),
{
    let shift: u64 = (byte_offset as u64) * 8;
    let orig_byte = (word >> shift) & 0xff;
    let masked_word = word & !(0xffu64 << shift);
    let updated_word = masked_word | ((val as u64) << shift);
    proof {
        let off = byte_offset as u64;
        lemma_patch_byte(word, off, val as u64, off);
        assert forall|j: u64| j < 8 && j != off implies byte_at(updated_word, j) == byte_at(
            word,
            j,
        ) by {
            lemma_patch_byte(word, off, val as u64, j);
        }
        assert(orig_byte < 256) by (bit_vector)
            requires
                orig_byte == (word >> shift) & 0xff,
        ;
    }
    (updated_word, orig_byte as u8)
}

/// Patching a byte and then patching back the byte it replaced gives the
/// word as it was: removing a breakpoint restores the code.
pub proof fn law_patch_back_restores(word: u64, byte_offset: u64, val: u8, orig: u8, patched: u64, restored: u64)
    requires
        byte_offset < 8,
        orig == byte_at(word, byte_offset),
        byte_at(patched, byte_offset) == val,
        forall|j: u64| j < 8 && j != byte_offset ==> byte_at(patched, j) == byte_at(word, j),
        byte_at(restored, byte_offset) == orig,
        forall|j: u64| j < 8 && j != byte_offset ==> byte_at(restored, j) == byte_at(patched, j),
    ensures
        restored == word,
{
    lemma_word_from_bytes(restored, word);
}

/// Stepping over a breakpoint and planting it again leaves the same word in
/// memory as the first planting: the breakpoint survives being hit.
pub proof fn law_replant_matches_first_plant(word: u64, byte_offset: u64, planted: u64, restored: u64, replanted: u64)
    requires
        byte_offset < 8,
        byte_at(planted, byte_offset) == TRAP_INSTRUCTION,
        forall|j: u64| j < 8 && j != byte_offset ==> byte_at(planted, j) == byte_at(word, j),
        byte_at(restored, byte_offset) == byte_at(word, byte_offset),
        forall|j: u64| j < 8 && j != byte_offset ==> byte_at(restored, j) == byte_at(planted, j),
        byte_at(replanted, byte_offset) == TRAP_INSTRUCTION,
        forall|j: u64| j < 8 && j != byte_offset ==> byte_at(replanted, j) == byte_at(restored, j),
    ensures
        restored == word,
        replanted == planted,
{
    lemma_word_from_bytes(restored, word);
    lemma_word_from_bytes(replanted, planted);
}

/// The traced process's memory after writing the byte `val` at `addr`, as
/// the debugger does it: the machine word holding `addr` is read, patched
/// and written back; also the byte that was there. `mem` maps word-aligned
/// addresses to the words stored there.
pub open spec fn spec_write_byte(mem: Map<usize, u64>, addr: usize, val: u8) -> (Map<usize, u64>, u8) {
    let aligned = (addr - (addr as int) % (word_size() as int)) as usize;
    let off = (addr - aligned) as u64;
    (mem.insert(aligned, patched(mem[aligned], off, val as u64)), byte_at(mem[aligned], off) as u8)
}

/// The write of the byte `val` at `addr`, given `word`, the machine word read
/// at the word-aligned address that holds `addr`: that aligned address, the
/// word to write back there and the byte that the write replaces. On any
/// memory that holds `word` there, writing the word back is exactly
/// `spec_write_byte`.
pub fn plan_write_byte(addr: usize, word: u64, val: u8) -> (r: (usize, u64, u8))
    ensures
        r.0 == addr - (addr as int) % (word_size() as int),
        r.1 == patched(word, (addr - r.0) as u64, val as u64),
        r.2 == byte_at(word, (addr - r.0) as u64),
        forall|mem: Map<usize, u64>|
            mem.contains_key(r.0) && mem[r.0] == word ==> #[trigger] spec_write_byte(mem, addr, val)
                == (mem.insert(r.0, r.1), r.2),
{
    broadcast use vstd::layout::layout_of_primitives;

    let aligned = align_addr_to_word(addr);
    assert(vstd::layout::size_of::<usize>() * 8 == usize::BITS);
    assert(word_size() <= 8);
    let byte_offset = addr - aligned;
    let (updated, orig) = patch_word(word, byte_offset, val);
    (aligned, updated, orig)
}

/// Writing back the byte that a write replaced restores the memory and
/// gives back the byte first written.
pub proof fn law_write_byte_round_trip(mem: Map<usize, u64>, addr: usize, val: u8)
    requires
        mem.contains_key((addr - (addr as int) % (word_size() as int)) as usize),
    ensures
        ({
            let (once, orig) = spec_write_byte(mem, addr, val);
            let (twice, back) = spec_write_byte(once, addr, orig);
            twice == mem && back == val
        }),
{
    broadcast use vstd::layout::layout_of_primitives;

    let ws = word_size();
    assert(vstd::layout::size_of::<usize>() * 8 == usize::BITS);
    assert(ws == 4 || ws == 8);
    if ws == 8 {
        assert(0 <= (addr as int) % 8 < 8);
    } else {
        assert(0 <= (addr as int) % 4 < 4);
    }
    let aligned = (addr - (addr as int) % (ws as int)) as usize;
    let off = (addr - aligned) as u64;
    assert(off < 8);
    let w = mem[aligned];
    let orig = byte_at(w, off);
    lemma_patch_byte(w, off, val as u64, off);
    let once = patched(w, off, val as u64);
    assert(orig < 256) by (bit_vector)
        requires
            orig == (w >> (off * 8)) & 0xff,
    ;
    lemma_patch_byte(once, off, orig, off);
    let twice = patched(once, off, orig);
    assert forall|j: u64| j < 8 implies byte_at(twice, j) == byte_at(w, j) by {
        lemma_patch_byte(once, off, orig, j);
        lemma_patch_byte(w, off, val as u64, j);
    }
    lemma_word_from_bytes(twice, w);
    assert(mem.insert(aligned, once).insert(aligned, twice) =~= mem);
}

/// A planted breakpoint: where it is and the byte that the trap instruction
/// replaced.
#[derive(Debug, Clone, Copy, PartialEq, Eq)]
pub struct BreakPoint {
    pub addr: usize,
    pub val: u8,
}

/// The planted breakpoints, by address.
pub struct Breakpoints {
    table: HashMap<usize, BreakPoint>,
}

impl View for Breakpoints {
    type V = Map<usize, BreakPoint>;

    closed spec fn view(&self) -> Map<usize, BreakPoint> {
        self.table@
    }
}

impl Breakpoints {
    /// No breakpoint.
    pub fn new() -> (r: Breakpoints)
        ensures
            r@ == Map::<usize, BreakPoint>::empty(),
    {
        Breakpoints { table: HashMap::new() }
    }

    /// Records a breakpoint planted at `addr` over the byte `orig`,
    /// replacing any earlier record for that address.
    pub fn record(&mut self, addr: usize, orig: u8)
        ensures
            final(self)@ == old(self)@.insert(addr, BreakPoint { addr, val: orig }),
    {
        self.table.insert(addr, BreakPoint { addr, val: orig });
    }

    /// The breakpoint recorded at `addr`, if any.
    pub fn get(&self, addr: usize) -> (r: Option<BreakPoint>)
        ensures
            r == (if self@.contains_key(addr) {
                Some(self@[addr])
            } else {
                None
            }),
    {
        match self.table.get(&addr) {
            Some(bp) => Some(*bp),
            None => None,
        }
    }
}

/// How to resume the child.
#[derive(Debug, Clone, Copy, PartialEq, Eq)]
pub enum ResumePlan {
    /// Not stopped on a breakpoint: just continue.
    Continue,
    /// Stopped just past the trap at `addr`: put back `orig`, move the
    /// instruction pointer back to `addr`, single-step, then re-arm.
    StepOverBreakpoint { addr: usize, orig: u8 },
}

/// What resuming from the instruction pointer `rip` takes: the trap at
/// `rip - 1` is a recorded breakpoint exactly when the child must step over
/// it.
pub fn plan_resume(breakpoints: &Breakpoints, rip: u64) -> (r: ResumePlan)
    requires
        1 <= rip,
        rip - 1 <= usize::MAX,
    ensures
        ({
            let addr = (rip - 1) as usize;
            if breakpoints@.contains_key(addr) {
                r == ResumePlan::StepOverBreakpoint { addr, orig: breakpoints@[addr].val }
            } else {
                r == ResumePlan::Continue
            }
        }),
{
    let addr = (rip - 1) as usize;
    match breakpoints.get(addr) {
        Some(bp) => ResumePlan::StepOverBreakpoint { addr, orig: bp.val },
        None => ResumePlan::Continue,
    }
}

/// After stepping over a breakpoint: the trap is planted again, and the
/// child continued, only when the step ended in a trap stop; any other
/// status is handed back as it is.
pub fn rearm_after_step(status: &Status) -> (r: bool)
    ensures
        r == (*status matches Status::Stopped(sig, _) && sig == SIGTRAP),
{
    match status {
        Status::Stopped(sig, _) => *sig == SIGTRAP,
        _ => false,
    }
}

} // verus!
