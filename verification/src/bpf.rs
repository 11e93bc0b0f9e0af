//! Berkeley Packet Filter (BPF).
//!
//! A BPF is a small register-based virtual machine that decides whether a
//! captured frame should be passed to the application:
//!
//! * [`BpfVm`] executes [`BpfInsn`] bytecode against a packet;
//! * [`crate::filter::FilterBuilder`] compiles filter expressions into it.
//!
//! The instruction set is the classic BPF one. Every jump is relative to the
//! instruction that follows it and leads forward, so a program runs each of
//! its instructions at most once.

use vstd::prelude::*;

use crate::wire::{be16, be32, get_be16, get_be32, law_big_endian};

verus! {

// Instruction classes.
pub const BPF_LD: u8 = 0x00;
pub const BPF_LDX: u8 = 0x01;
pub const BPF_ST: u8 = 0x02;
pub const BPF_STX: u8 = 0x03;
pub const BPF_ALU: u8 = 0x04;
pub const BPF_JMP: u8 = 0x05;
pub const BPF_RET: u8 = 0x06;
pub const BPF_MISC: u8 = 0x07;

// Sizes and modes of the load classes.
pub const BPF_W: u8 = 0x00;
pub const BPF_H: u8 = 0x08;
pub const BPF_B: u8 = 0x10;
pub const BPF_IMM: u8 = 0x00;
pub const BPF_ABS: u8 = 0x20;
pub const BPF_IND: u8 = 0x40;
pub const BPF_MEM: u8 = 0x60;
pub const BPF_LEN: u8 = 0x80;
pub const BPF_MSH: u8 = 0xa0;

// Operations of the arithmetic class.
pub const BPF_ADD: u8 = 0x00;
pub const BPF_SUB: u8 = 0x10;
pub const BPF_MUL: u8 = 0x20;
pub const BPF_DIV: u8 = 0x30;
pub const BPF_OR: u8 = 0x40;
pub const BPF_AND: u8 = 0x50;
pub const BPF_LSH: u8 = 0x60;
pub const BPF_RSH: u8 = 0x70;
pub const BPF_NEG: u8 = 0x80;
pub const BPF_MOD: u8 = 0x90;
pub const BPF_XOR: u8 = 0xa0;

// Operations of the jump class.
pub const BPF_JA: u8 = 0x00;
pub const BPF_JEQ: u8 = 0x10;
pub const BPF_JGT: u8 = 0x20;
pub const BPF_JGE: u8 = 0x30;
pub const BPF_JSET: u8 = 0x40;

// Operands of the return, arithmetic and jump classes.
pub const BPF_K: u8 = 0x00;
pub const BPF_X: u8 = 0x08;
pub const BPF_A: u8 = 0x10;

// Operations of the register-transfer class.
pub const BPF_TAX: u8 = 0x00;
pub const BPF_TXA: u8 = 0x80;

/// The result returned when a filter accepts a packet.
pub const BPF_ACCEPT: u32 = 0xffff_ffff;
/// Classic "return 0" means reject.
pub const BPF_REJECT: u32 = 0;

/// A single BPF instruction.
#[derive(Clone, Copy, Debug, PartialEq, Eq, Structural)]
pub struct BpfInsn {
    pub code: u16,
    pub jt: u8,
    pub jf: u8,
    pub k: u32,
}

impl BpfInsn {
    pub fn new(code: u16, jt: u8, jf: u8, k: u32) -> (r: Self)
        ensures
            r == (BpfInsn { code, jt, jf, k }),
    {
        BpfInsn { code, jt, jf, k }
    }

    /// The instruction class.
    pub open spec fn class(self) -> u8 {
        (self.code & 0x07) as u8
    }

    /// The width of a load.
    pub open spec fn size(self) -> u8 {
        (self.code & 0x18) as u8
    }

    /// Where a load takes its value from.
    pub open spec fn mode(self) -> u8 {
        (self.code & 0xe0) as u8
    }

    /// The arithmetic operation.
    pub open spec fn alu_op(self) -> u8 {
        (self.code & 0xf0) as u8
    }

    /// The jump condition.
    pub open spec fn jump_op(self) -> u8 {
        (self.code & 0x70) as u8
    }

    /// Whether this return instruction returns the accumulator.
    pub open spec fn returns_acc(self) -> bool {
        self.code & 0x18 == BPF_A as u16
    }

    /// Whether the operand is the index register instead of `k`.
    pub open spec fn uses_x(self) -> bool {
        self.code & 0x08 != 0
    }
}

/// The registers and scratch memory of the machine.
pub struct VmState {
    pub acc: u32,
    pub x: u32,
    pub mem: Seq<u32>,
}

/// What one instruction does: go on at another place, or end the program.
pub enum Step {
    Continue { state: VmState, pc: int },
    Halt { state: VmState, value: u32 },
}

/// Registers and memory before the first instruction.
pub open spec fn fresh_state() -> VmState {
    VmState { acc: 0, x: 0, mem: Seq::new(16, |i: int| 0u32) }
}

/// The big-endian value of the given width at offset `at` of the packet, where
/// the packet reaches that far.
pub open spec fn packet_value(pkt: Seq<u8>, at: int, size: u8) -> Option<u32> {
    if size == BPF_W {
        if at + 4 <= pkt.len() {
            Some(be32(pkt, at) as u32)
        } else {
            None
        }
    } else if size == BPF_H {
        if at + 2 <= pkt.len() {
            Some(be16(pkt, at) as u32)
        } else {
            None
        }
    } else if at < pkt.len() {
        Some(pkt[at] as u32)
    } else {
        None
    }
}

/// Four times the low half of the packet byte at `at`: the length of an IP
/// header that starts there.
pub open spec fn header_length(pkt: Seq<u8>, at: int) -> Option<u32> {
    match packet_value(pkt, at, BPF_B) {
        Some(v) => Some((v & 0x0f) << 2),
        None => None,
    }
}

/// What a load instruction loads; nothing where it reads out of bounds or its
/// mode is unknown.
pub open spec fn load_value(insn: BpfInsn, pkt: Seq<u8>, st: VmState) -> Option<u32> {
    let mode = insn.mode();
    if mode == BPF_IMM {
        Some(insn.k)
    } else if mode == BPF_ABS {
        packet_value(pkt, insn.k as int, insn.size())
    } else if mode == BPF_IND {
        if st.x + insn.k <= u32::MAX {
            packet_value(pkt, st.x + insn.k, insn.size())
        } else {
            None
        }
    } else if mode == BPF_MEM {
        if insn.k < 16 {
            Some(st.mem[insn.k as int])
        } else {
            None
        }
    } else if mode == BPF_LEN {
        Some(pkt.len() as u32)
    } else if mode == BPF_MSH {
        header_length(pkt, insn.k as int)
    } else {
        None
    }
}

/// The result of an arithmetic operation; an unknown one changes nothing, and
/// dividing by zero has none.
pub open spec fn alu_value(op: u8, acc: u32, v: u32) -> Option<u32> {
    if (op == BPF_DIV || op == BPF_MOD) && v == 0 {
        None
    } else {
        Some(alu_result(op, acc, v))
    }
}

/// The result of an arithmetic operation that does not divide by zero.
pub open spec fn alu_result(op: u8, acc: u32, v: u32) -> u32 {
    if op == BPF_ADD {
        acc.wrapping_add(v)
    } else if op == BPF_SUB {
        acc.wrapping_sub(v)
    } else if op == BPF_MUL {
        acc.wrapping_mul(v)
    } else if op == BPF_DIV {
        acc / v
    } else if op == BPF_OR {
        acc | v
    } else if op == BPF_AND {
        acc & v
    } else if op == BPF_LSH {
        if v < 32 {
            acc << v
        } else {
            0
        }
    } else if op == BPF_RSH {
        if v < 32 {
            acc >> v
        } else {
            0
        }
    } else if op == BPF_NEG {
        0u32.wrapping_sub(acc)
    } else if op == BPF_MOD {
        acc % v
    } else if op == BPF_XOR {
        acc ^ v
    } else {
        acc
    }
}

/// Whether a conditional jump is taken; nothing for an unknown condition.
pub open spec fn jump_taken(op: u8, acc: u32, v: u32) -> Option<bool> {
    if op == BPF_JEQ {
        Some(acc == v)
    } else if op == BPF_JGT {
        Some(acc > v)
    } else if op == BPF_JGE {
        Some(acc >= v)
    } else if op == BPF_JSET {
        Some(acc & v != 0)
    } else {
        None
    }
}

/// One instruction, at `pc`.
pub open spec fn step(insn: BpfInsn, pkt: Seq<u8>, st: VmState, pc: int) -> Step {
    let class = insn.class();
    let operand = if insn.uses_x() {
        st.x
    } else {
        insn.k
    };
    let reject = Step::Halt { state: st, value: 0 };
    if class == BPF_LD || class == BPF_LDX {
        match load_value(insn, pkt, st) {
            Some(v) => if class == BPF_LDX || insn.mode() == BPF_MSH {
                Step::Continue { state: VmState { x: v, ..st }, pc: pc + 1 }
            } else {
                Step::Continue { state: VmState { acc: v, ..st }, pc: pc + 1 }
            },
            None => reject,
        }
    } else if class == BPF_ST || class == BPF_STX {
        if insn.k < 16 {
            let v = if class == BPF_ST {
                st.acc
            } else {
                st.x
            };
            Step::Continue {
                state: VmState { mem: st.mem.update(insn.k as int, v), ..st },
                pc: pc + 1,
            }
        } else {
            reject
        }
    } else if class == BPF_ALU {
        match alu_value(insn.alu_op(), st.acc, operand) {
            Some(v) => Step::Continue { state: VmState { acc: v, ..st }, pc: pc + 1 },
            None => reject,
        }
    } else if class == BPF_JMP {
        if insn.jump_op() == BPF_JA {
            Step::Continue { state: st, pc: pc + 1 + insn.k }
        } else {
            match jump_taken(insn.jump_op(), st.acc, operand) {
                Some(true) => Step::Continue { state: st, pc: pc + 1 + insn.jt },
                Some(false) => Step::Continue { state: st, pc: pc + 1 + insn.jf },
                None => reject,
            }
        }
    } else if class == BPF_RET {
        Step::Halt {
            state: st,
            value: if insn.returns_acc() {
                st.acc
            } else {
                operand
            },
        }
    } else if insn.alu_op() == BPF_TAX {
        Step::Continue { state: VmState { x: st.acc, ..st }, pc: pc + 1 }
    } else if insn.alu_op() == BPF_TXA {
        Step::Continue { state: VmState { acc: st.x, ..st }, pc: pc + 1 }
    } else {
        Step::Continue { state: st, pc: pc + 1 }
    }
}

/// The state in which a program ends when started at `pc`, and the value that
/// it returns. A program that runs past its end returns its accumulator.
pub open spec fn execute(program: Seq<BpfInsn>, pkt: Seq<u8>, st: VmState, pc: int) -> (
    VmState,
    u32,
)
    decreases
            (if pc < program.len() {
                program.len() - pc
            } else {
                0
            }),
    when 0 <= pc
{
    if pc >= program.len() {
        (st, st.acc)
    } else {
        match step(program[pc], pkt, st, pc) {
            Step::Continue { state, pc: next } => execute(program, pkt, state, next),
            Step::Halt { state, value } => (state, value),
        }
    }
}

/// The value that a program returns for a packet.
pub open spec fn verdict(program: Seq<BpfInsn>, pkt: Seq<u8>) -> u32 {
    execute(program, pkt, fresh_state(), 0).1
}

/// Whether a program passes a packet on.
pub open spec fn accepts(program: Seq<BpfInsn>, pkt: Seq<u8>) -> bool {
    verdict(program, pkt) != 0
}

/// The BPF interpreter evaluating bytecode against a packet buffer.
pub struct BpfVm {
    pub acc: u32,
    pub x: u32,
    pub mem: [u32; 16],
}

impl View for BpfVm {
    type V = VmState;

    open spec fn view(&self) -> VmState {
        VmState { acc: self.acc, x: self.x, mem: self.mem@ }
    }
}

impl Default for BpfVm {
    fn default() -> (r: Self)
        ensures
            r@ == fresh_state(),
    {
        let r: BpfVm = BpfVm { acc: 0, x: 0, mem: [0u32; 16] };
        assert(r@.mem =~= fresh_state().mem);
        r
    }
}

impl BpfVm {
    pub fn new() -> (r: Self)
        ensures
            r@ == fresh_state(),
    {
        BpfVm::default()
    }

    /// Whether the program passes the packet on.
    pub fn filter_ok(&mut self, program: &[BpfInsn], pkt: &[u8]) -> (r: bool)
        ensures
            r == accepts(program@, pkt@),
            final(self)@ == execute(program@, pkt@, fresh_state(), 0).0,
    {
        self.run(program, pkt) != 0
    }

    /// Execute a program against a packet (nonzero accepts, zero rejects).
    /// What earlier runs left in the registers plays no part.
    pub fn run(&mut self, program: &[BpfInsn], pkt: &[u8]) -> (r: u32)
        ensures
            r == verdict(program@, pkt@),
            final(self)@ == execute(program@, pkt@, fresh_state(), 0).0,
    {
        self.acc = 0;
        self.x = 0;
        self.mem = [0u32; 16];
        assert(self@.mem =~= fresh_state().mem);
        let pkt_len: u32 = pkt.len() as u32;
        let mut pc: usize = 0;
        while pc < program.len()
            invariant
                pkt_len == pkt@.len() as u32,
                pc <= program@.len(),
                execute(program@, pkt@, self@, pc as int) == execute(
                    program@,
                    pkt@,
                    fresh_state(),
                    0,
                ),
            decreases program@.len() - pc,
        {
            let ins: BpfInsn = program[pc];
            let cls: u8 = (ins.code & 0x07) as u8;
            let ghost before = self@;
            match cls {
                BPF_LD | BPF_LDX => {
                    let size: u8 = (ins.code & 0x18) as u8;
                    let mode: u8 = (ins.code & 0xe0) as u8;
                    let value: Option<u32> = match mode {
                        BPF_IMM => Some(ins.k),
                        BPF_ABS => load(pkt, ins.k, size),
                        BPF_IND => match self.x.checked_add(ins.k) {
                            Some(at) => load(pkt, at, size),
                            None => None,
                        },
                        BPF_MEM => if ins.k < 16 {
                            Some(self.mem[ins.k as usize])
                        } else {
                            None
                        },
                        BPF_LEN => Some(pkt_len),
                        BPF_MSH => match load(pkt, ins.k, BPF_B) {
                            Some(v) => Some((v & 0x0f) << 2),
                            None => None,
                        },
                        _ => None,
                    };
                    assert(value == load_value(ins, pkt@, before));
                    match value {
                        Some(v) => {
                            if cls == BPF_LDX || mode == BPF_MSH {
                                self.x = v;
                            } else {
                                self.acc = v;
                            }
                        },
                        None => {
                            return 0;
                        },
                    }
                },
                BPF_ST | BPF_STX => {
                    if ins.k >= 16 {
                        return 0;
                    }
                    self.mem[ins.k as usize] = if cls == BPF_ST {
                        self.acc
                    } else {
                        self.x
                    };
                },
                BPF_ALU => {
                    let op: u8 = (ins.code & 0xf0) as u8;
                    if !self.alu(op, ins.code & 0x08 != 0, ins.k) {
                        return 0;
                    }
                },
                BPF_JMP => {
                    let op: u8 = (ins.code & 0x70) as u8;
                    let v: u32 = if ins.code & 0x08 != 0 {
                        self.x
                    } else {
                        ins.k
                    };
                    let taken: bool = match op {
                        BPF_JA => true,
                        BPF_JEQ => self.acc == v,
                        BPF_JGT => self.acc > v,
                        BPF_JGE => self.acc >= v,
                        BPF_JSET => self.acc & v != 0,
                        _ => {
                            return 0;
                        },
                    };
                    let offset: u32 = if op == BPF_JA {
                        ins.k
                    } else if taken {
                        ins.jt as u32
                    } else {
                        ins.jf as u32
                    };
                    let ghost target = pc + 1 + offset;
                    assert(step(ins, pkt@, before, pc as int) == Step::Continue {
                        state: before,
                        pc: target,
                    });
                    if offset as usize >= program.len() - pc - 1 {
                        // The target lies past the end of the program.
                        pc = program.len();
                    } else {
                        pc = pc + 1 + offset as usize;
                    }
                    assert(execute(program@, pkt@, before, target) == execute(
                        program@,
                        pkt@,
                        before,
                        pc as int,
                    ));
                    continue;
                },
                BPF_RET => {
                    return if ins.code & 0x18 == BPF_A as u16 {
                        self.acc
                    } else if ins.code & 0x08 != 0 {
                        self.x
                    } else {
                        ins.k
                    };
                },
                _ => {
                    let op: u8 = (ins.code & 0xf0) as u8;
                    if op == BPF_TAX {
                        self.x = self.acc;
                    } else if op == BPF_TXA {
                        self.acc = self.x;
                    }
                },
            }
            pc = pc + 1;
        }
        self.acc
    }

    /// Apply an arithmetic operation to the accumulator. Returns whether there
    /// is a result: dividing by zero has none, and changes nothing.
    pub fn alu(&mut self, op: u8, use_x: bool, k: u32) -> (r: bool)
        ensures
            ({
                let operand = if use_x {
                    old(self).x
                } else {
                    k
                };
                match alu_value(op, old(self).acc, operand) {
                    Some(v) => r && final(self)@ == (VmState { acc: v, ..old(self)@ }),
                    None => !r && *final(self) == *old(self),
                }
            }),
    {
        let v: u32 = if use_x {
            self.x
        } else {
            k
        };
        if (op == BPF_DIV || op == BPF_MOD) && v == 0 {
            return false;
        }
        self.acc = match op {
            BPF_ADD => self.acc.wrapping_add(v),
            BPF_SUB => self.acc.wrapping_sub(v),
            BPF_MUL => self.acc.wrapping_mul(v),
            BPF_DIV => self.acc / v,
            BPF_OR => self.acc | v,
            BPF_AND => self.acc & v,
            BPF_LSH => if v < 32 {
                self.acc << v
            } else {
                0
            },
            BPF_RSH => if v < 32 {
                self.acc >> v
            } else {
                0
            },
            BPF_NEG => 0u32.wrapping_sub(self.acc),
            BPF_MOD => self.acc % v,
            BPF_XOR => self.acc ^ v,
            _ => self.acc,
        };
        true
    }
}

/// Load a value of the given size at absolute offset `idx` of the packet.
/// Nothing if that is out of bounds.
pub fn load(pkt: &[u8], idx: u32, size: u8) -> (r: Option<u32>)
    ensures
        r == packet_value(pkt@, idx as int, size),
{
    let at: usize = idx as usize;
    let len: usize = pkt.len();
    match size {
        BPF_W => if len >= 4 && at <= len - 4 {
            Some(get_be32(pkt, at))
        } else {
            None
        },
        BPF_H => if len >= 2 && at <= len - 2 {
            Some(get_be16(pkt, at) as u32)
        } else {
            None
        },
        _ => if at < len {
            Some(pkt[at] as u32)
        } else {
            None
        },
    }
}

/// A compiled filter.
#[derive(Debug, Clone)]
pub struct BpfProgram {
    pub insns: Vec<BpfInsn>,
}

impl BpfProgram {
    pub fn from_insns(insns: Vec<BpfInsn>) -> (r: Self)
        ensures
            r.insns == insns,
    {
        BpfProgram { insns }
    }

    /// Interpret this filter against a packet.
    pub fn filter(&self, pkt: &[u8]) -> (r: bool)
        ensures
            r == accepts(self.insns@, pkt@),
    {
        let mut vm: BpfVm = BpfVm::new();
        vm.filter_ok(self.insns.as_slice(), pkt)
    }
}

// ---------------------------------------------------------------------------
// The meaning of the instructions, by their codes

/// Whether bit `i` of a word is set, counted from the least significant one.
pub open spec fn bit_of(v: u32, i: u32) -> bool {
    (v >> i) & 1 == 1
}

/// The codes of jumps, taken apart.
proof fn lemma_jump_codes()
    ensures
        forall|c: u16|
            #![trigger c & 0x07]
            c == 0x05 || c == 0x0d || c == 0x15 || c == 0x1d || c == 0x25 || c == 0x2d || c == 0x35 || c == 0x3d || c == 0x45 || c == 0x4d ==> c & 0x07 == 5,
        forall|c: u16| #![trigger c & 0x70] c == 0x05 || c == 0x0d ==> c & 0x70 == 0x00,
        forall|c: u16| #![trigger c & 0x70] c == 0x15 || c == 0x1d ==> c & 0x70 == 0x10,
        forall|c: u16| #![trigger c & 0x70] c == 0x25 || c == 0x2d ==> c & 0x70 == 0x20,
        forall|c: u16| #![trigger c & 0x70] c == 0x35 || c == 0x3d ==> c & 0x70 == 0x30,
        forall|c: u16| #![trigger c & 0x70] c == 0x45 || c == 0x4d ==> c & 0x70 == 0x40,
        forall|c: u16|
            #![trigger c & 0x08]
            c == 0x15 || c == 0x25 || c == 0x35 || c == 0x45 ==> c & 0x08 == 0,
        forall|c: u16|
            #![trigger c & 0x08]
            c == 0x1d || c == 0x2d || c == 0x3d || c == 0x4d ==> c & 0x08 == 8,
{
    assert(0x05u16 & 0x07 == 0x05 && 0x05u16 & 0x70 == 0x00 && 0x05u16 & 0x08 == 0x00
        && 0x0du16 & 0x07 == 0x05 && 0x0du16 & 0x70 == 0x00 && 0x0du16 & 0x08 == 0x08
        && 0x15u16 & 0x07 == 0x05 && 0x15u16 & 0x70 == 0x10 && 0x15u16 & 0x08 == 0x00
        && 0x1du16 & 0x07 == 0x05 && 0x1du16 & 0x70 == 0x10 && 0x1du16 & 0x08 == 0x08
        && 0x25u16 & 0x07 == 0x05 && 0x25u16 & 0x70 == 0x20 && 0x25u16 & 0x08 == 0x00
        && 0x2du16 & 0x07 == 0x05 && 0x2du16 & 0x70 == 0x20 && 0x2du16 & 0x08 == 0x08
        && 0x35u16 & 0x07 == 0x05 && 0x35u16 & 0x70 == 0x30 && 0x35u16 & 0x08 == 0x00
        && 0x3du16 & 0x07 == 0x05 && 0x3du16 & 0x70 == 0x30 && 0x3du16 & 0x08 == 0x08
        && 0x45u16 & 0x07 == 0x05 && 0x45u16 & 0x70 == 0x40 && 0x45u16 & 0x08 == 0x00
        && 0x4du16 & 0x07 == 0x05 && 0x4du16 & 0x70 == 0x40 && 0x4du16 & 0x08 == 0x08) by (bit_vector);
}

/// Words have a common bit exactly where their conjunction is not zero.
proof fn lemma_common_bit(a: u32, b: u32)
    ensures
        a & b != 0 <==> exists|i: u32| i < 32 && #[trigger] bit_of(a, i) && bit_of(b, i),
{
    if exists|i: u32| i < 32 && #[trigger] bit_of(a, i) && bit_of(b, i) {
        let i = choose|i: u32| i < 32 && #[trigger] bit_of(a, i) && bit_of(b, i);
        assert(a & b != 0) by (bit_vector)
            requires
                i < 32,
                (a >> i) & 1 == 1,
                (b >> i) & 1 == 1,
        ;
    }
    if a & b != 0 {
        assert(
            ((a >> 0u32) & 1 == 1 && (b >> 0u32) & 1 == 1)
            || ((a >> 1u32) & 1 == 1 && (b >> 1u32) & 1 == 1)
            || ((a >> 2u32) & 1 == 1 && (b >> 2u32) & 1 == 1)
            || ((a >> 3u32) & 1 == 1 && (b >> 3u32) & 1 == 1)
            || ((a >> 4u32) & 1 == 1 && (b >> 4u32) & 1 == 1)
            || ((a >> 5u32) & 1 == 1 && (b >> 5u32) & 1 == 1)
            || ((a >> 6u32) & 1 == 1 && (b >> 6u32) & 1 == 1)
            || ((a >> 7u32) & 1 == 1 && (b >> 7u32) & 1 == 1)
            || ((a >> 8u32) & 1 == 1 && (b >> 8u32) & 1 == 1)
            || ((a >> 9u32) & 1 == 1 && (b >> 9u32) & 1 == 1)
            || ((a >> 10u32) & 1 == 1 && (b >> 10u32) & 1 == 1)
            || ((a >> 11u32) & 1 == 1 && (b >> 11u32) & 1 == 1)
            || ((a >> 12u32) & 1 == 1 && (b >> 12u32) & 1 == 1)
            || ((a >> 13u32) & 1 == 1 && (b >> 13u32) & 1 == 1)
            || ((a >> 14u32) & 1 == 1 && (b >> 14u32) & 1 == 1)
            || ((a >> 15u32) & 1 == 1 && (b >> 15u32) & 1 == 1)
            || ((a >> 16u32) & 1 == 1 && (b >> 16u32) & 1 == 1)
            || ((a >> 17u32) & 1 == 1 && (b >> 17u32) & 1 == 1)
            || ((a >> 18u32) & 1 == 1 && (b >> 18u32) & 1 == 1)
            || ((a >> 19u32) & 1 == 1 && (b >> 19u32) & 1 == 1)
            || ((a >> 20u32) & 1 == 1 && (b >> 20u32) & 1 == 1)
            || ((a >> 21u32) & 1 == 1 && (b >> 21u32) & 1 == 1)
            || ((a >> 22u32) & 1 == 1 && (b >> 22u32) & 1 == 1)
            || ((a >> 23u32) & 1 == 1 && (b >> 23u32) & 1 == 1)
            || ((a >> 24u32) & 1 == 1 && (b >> 24u32) & 1 == 1)
            || ((a >> 25u32) & 1 == 1 && (b >> 25u32) & 1 == 1)
            || ((a >> 26u32) & 1 == 1 && (b >> 26u32) & 1 == 1)
            || ((a >> 27u32) & 1 == 1 && (b >> 27u32) & 1 == 1)
            || ((a >> 28u32) & 1 == 1 && (b >> 28u32) & 1 == 1)
            || ((a >> 29u32) & 1 == 1 && (b >> 29u32) & 1 == 1)
            || ((a >> 30u32) & 1 == 1 && (b >> 30u32) & 1 == 1)
            || ((a >> 31u32) & 1 == 1 && (b >> 31u32) & 1 == 1)
        ) by (bit_vector)
            requires
                a & b != 0,
        ;
        assert forall|i: u32| (a >> i) & 1 == 1 implies #[trigger] bit_of(a, i) by {}
        assert(bit_of(a, 0u32) == ((a >> 0u32) & 1 == 1));
        assert(bit_of(a, 1u32) == ((a >> 1u32) & 1 == 1));
        assert(bit_of(a, 2u32) == ((a >> 2u32) & 1 == 1));
        assert(bit_of(a, 3u32) == ((a >> 3u32) & 1 == 1));
        assert(bit_of(a, 4u32) == ((a >> 4u32) & 1 == 1));
        assert(bit_of(a, 5u32) == ((a >> 5u32) & 1 == 1));
        assert(bit_of(a, 6u32) == ((a >> 6u32) & 1 == 1));
        assert(bit_of(a, 7u32) == ((a >> 7u32) & 1 == 1));
        assert(bit_of(a, 8u32) == ((a >> 8u32) & 1 == 1));
        assert(bit_of(a, 9u32) == ((a >> 9u32) & 1 == 1));
        assert(bit_of(a, 10u32) == ((a >> 10u32) & 1 == 1));
        assert(bit_of(a, 11u32) == ((a >> 11u32) & 1 == 1));
        assert(bit_of(a, 12u32) == ((a >> 12u32) & 1 == 1));
        assert(bit_of(a, 13u32) == ((a >> 13u32) & 1 == 1));
        assert(bit_of(a, 14u32) == ((a >> 14u32) & 1 == 1));
        assert(bit_of(a, 15u32) == ((a >> 15u32) & 1 == 1));
        assert(bit_of(a, 16u32) == ((a >> 16u32) & 1 == 1));
        assert(bit_of(a, 17u32) == ((a >> 17u32) & 1 == 1));
        assert(bit_of(a, 18u32) == ((a >> 18u32) & 1 == 1));
        assert(bit_of(a, 19u32) == ((a >> 19u32) & 1 == 1));
        assert(bit_of(a, 20u32) == ((a >> 20u32) & 1 == 1));
        assert(bit_of(a, 21u32) == ((a >> 21u32) & 1 == 1));
        assert(bit_of(a, 22u32) == ((a >> 22u32) & 1 == 1));
        assert(bit_of(a, 23u32) == ((a >> 23u32) & 1 == 1));
        assert(bit_of(a, 24u32) == ((a >> 24u32) & 1 == 1));
        assert(bit_of(a, 25u32) == ((a >> 25u32) & 1 == 1));
        assert(bit_of(a, 26u32) == ((a >> 26u32) & 1 == 1));
        assert(bit_of(a, 27u32) == ((a >> 27u32) & 1 == 1));
        assert(bit_of(a, 28u32) == ((a >> 28u32) & 1 == 1));
        assert(bit_of(a, 29u32) == ((a >> 29u32) & 1 == 1));
        assert(bit_of(a, 30u32) == ((a >> 30u32) & 1 == 1));
        assert(bit_of(a, 31u32) == ((a >> 31u32) & 1 == 1));
    }
}

/// A jump goes forward from the next instruction: always by `k` for the code
/// 0x05, else by `jt` or `jf`. It goes by `jt` where the accumulator equals the
/// operand (0x15, 0x1d), is above it (0x25, 0x2d), is not below it (0x35, 0x3d)
/// or has a bit in common with it (0x45, 0x4d). The operand is `k` for the first
/// code of each pair and the index register for the second. No jump changes a
/// register or the memory.
pub proof fn law_jumps(insn: BpfInsn, pkt: Seq<u8>, st: VmState, pc: int)
    ensures
        ({
            let yes = Step::Continue { state: st, pc: pc + 1 + insn.jt };
            let no = Step::Continue { state: st, pc: pc + 1 + insn.jf };
            let s = step(insn, pkt, st, pc);
            &&& insn.code == 0x05 ==> s == (Step::Continue { state: st, pc: pc + 1 + insn.k })
            &&& insn.code == 0x15 ==> s == (if st.acc == insn.k { yes } else { no })
            &&& insn.code == 0x1d ==> s == (if st.acc == st.x { yes } else { no })
            &&& insn.code == 0x25 ==> s == (if st.acc > insn.k { yes } else { no })
            &&& insn.code == 0x2d ==> s == (if st.acc > st.x { yes } else { no })
            &&& insn.code == 0x35 ==> s == (if st.acc >= insn.k { yes } else { no })
            &&& insn.code == 0x3d ==> s == (if st.acc >= st.x { yes } else { no })
            &&& insn.code == 0x45 ==> s == (if exists|i: u32|
                i < 32 && #[trigger] bit_of(st.acc, i) && bit_of(insn.k, i) { yes } else { no })
            &&& insn.code == 0x4d ==> s == (if exists|i: u32|
                i < 32 && #[trigger] bit_of(st.acc, i) && bit_of(st.x, i) { yes } else { no })
        }),
{
    lemma_jump_codes();
    lemma_common_bit(st.acc, insn.k);
    lemma_common_bit(st.acc, st.x);
}

/// The codes of arithmetic, taken apart.
proof fn lemma_alu_codes()
    ensures
        forall|c: u16| #![trigger c & 0xf0] c == 0x04 || c == 0x0c ==> c & 0x07 == 4 && c & 0xf0 == 0x00,
        forall|c: u16| #![trigger c & 0xf0] c == 0x14 || c == 0x1c ==> c & 0x07 == 4 && c & 0xf0 == 0x10,
        forall|c: u16| #![trigger c & 0xf0] c == 0x24 || c == 0x2c ==> c & 0x07 == 4 && c & 0xf0 == 0x20,
        forall|c: u16| #![trigger c & 0xf0] c == 0x34 || c == 0x3c ==> c & 0x07 == 4 && c & 0xf0 == 0x30,
        forall|c: u16| #![trigger c & 0xf0] c == 0x44 || c == 0x4c ==> c & 0x07 == 4 && c & 0xf0 == 0x40,
        forall|c: u16| #![trigger c & 0xf0] c == 0x54 || c == 0x5c ==> c & 0x07 == 4 && c & 0xf0 == 0x50,
        forall|c: u16| #![trigger c & 0xf0] c == 0x64 || c == 0x6c ==> c & 0x07 == 4 && c & 0xf0 == 0x60,
        forall|c: u16| #![trigger c & 0xf0] c == 0x74 || c == 0x7c ==> c & 0x07 == 4 && c & 0xf0 == 0x70,
        forall|c: u16| #![trigger c & 0xf0] c == 0x84 || c == 0x8c ==> c & 0x07 == 4 && c & 0xf0 == 0x80,
        forall|c: u16| #![trigger c & 0xf0] c == 0x94 || c == 0x9c ==> c & 0x07 == 4 && c & 0xf0 == 0x90,
        forall|c: u16| #![trigger c & 0xf0] c == 0xa4 || c == 0xac ==> c & 0x07 == 4 && c & 0xf0 == 0xa0,
        forall|c: u16|
            #![trigger c & 0x08]
            c == 0x04 || c == 0x14 || c == 0x24 || c == 0x34 || c == 0x44 || c == 0x54 || c == 0x64 || c == 0x74 || c == 0x84 || c == 0x94 || c == 0xa4 ==> c & 0x08 == 0,
        forall|c: u16|
            #![trigger c & 0x08]
            c == 0x0c || c == 0x1c || c == 0x2c || c == 0x3c || c == 0x4c || c == 0x5c || c == 0x6c || c == 0x7c || c == 0x8c || c == 0x9c || c == 0xac ==> c & 0x08 == 8,
{
    assert(0x04u16 & 0x07 == 0x04 && 0x04u16 & 0xf0 == 0x00 && 0x04u16 & 0x08 == 0x00
        && 0x14u16 & 0x07 == 0x04 && 0x14u16 & 0xf0 == 0x10 && 0x14u16 & 0x08 == 0x00
        && 0x24u16 & 0x07 == 0x04 && 0x24u16 & 0xf0 == 0x20 && 0x24u16 & 0x08 == 0x00
        && 0x34u16 & 0x07 == 0x04 && 0x34u16 & 0xf0 == 0x30 && 0x34u16 & 0x08 == 0x00
        && 0x44u16 & 0x07 == 0x04 && 0x44u16 & 0xf0 == 0x40 && 0x44u16 & 0x08 == 0x00
        && 0x54u16 & 0x07 == 0x04 && 0x54u16 & 0xf0 == 0x50 && 0x54u16 & 0x08 == 0x00
        && 0x64u16 & 0x07 == 0x04 && 0x64u16 & 0xf0 == 0x60 && 0x64u16 & 0x08 == 0x00
        && 0x74u16 & 0x07 == 0x04 && 0x74u16 & 0xf0 == 0x70 && 0x74u16 & 0x08 == 0x00
        && 0x84u16 & 0x07 == 0x04 && 0x84u16 & 0xf0 == 0x80 && 0x84u16 & 0x08 == 0x00
        && 0x94u16 & 0x07 == 0x04 && 0x94u16 & 0xf0 == 0x90 && 0x94u16 & 0x08 == 0x00
        && 0xa4u16 & 0x07 == 0x04 && 0xa4u16 & 0xf0 == 0xa0 && 0xa4u16 & 0x08 == 0x00
        && 0x0cu16 & 0x07 == 0x04 && 0x0cu16 & 0xf0 == 0x00 && 0x0cu16 & 0x08 == 0x08
        && 0x1cu16 & 0x07 == 0x04 && 0x1cu16 & 0xf0 == 0x10 && 0x1cu16 & 0x08 == 0x08
        && 0x2cu16 & 0x07 == 0x04 && 0x2cu16 & 0xf0 == 0x20 && 0x2cu16 & 0x08 == 0x08
        && 0x3cu16 & 0x07 == 0x04 && 0x3cu16 & 0xf0 == 0x30 && 0x3cu16 & 0x08 == 0x08
        && 0x4cu16 & 0x07 == 0x04 && 0x4cu16 & 0xf0 == 0x40 && 0x4cu16 & 0x08 == 0x08
        && 0x5cu16 & 0x07 == 0x04 && 0x5cu16 & 0xf0 == 0x50 && 0x5cu16 & 0x08 == 0x08
        && 0x6cu16 & 0x07 == 0x04 && 0x6cu16 & 0xf0 == 0x60 && 0x6cu16 & 0x08 == 0x08
        && 0x7cu16 & 0x07 == 0x04 && 0x7cu16 & 0xf0 == 0x70 && 0x7cu16 & 0x08 == 0x08
        && 0x8cu16 & 0x07 == 0x04 && 0x8cu16 & 0xf0 == 0x80 && 0x8cu16 & 0x08 == 0x08
        && 0x9cu16 & 0x07 == 0x04 && 0x9cu16 & 0xf0 == 0x90 && 0x9cu16 & 0x08 == 0x08
        && 0xacu16 & 0x07 == 0x04 && 0xacu16 & 0xf0 == 0xa0 && 0xacu16 & 0x08 == 0x08) by (bit_vector);
}

/// Whether an instruction goes on with the next one, with `acc` in the
/// accumulator and all else as it was.
pub open spec fn gives(s: Step, st: VmState, pc: int, acc: u32) -> bool {
    s == (Step::Continue { state: VmState { acc, x: st.x, mem: st.mem }, pc: pc + 1 })
}

/// Sums, differences, products and negations are those of the integers, up to a
/// multiple of two to the 32. For each, the operand is `k` or, with eight added
/// to the code, the index register.
pub proof fn law_sums(insn: BpfInsn, pkt: Seq<u8>, st: VmState, pc: int) -> (r: u32)
    requires
        insn.code == 0x04 || insn.code == 0x0c || insn.code == 0x14 || insn.code == 0x1c
            || insn.code == 0x24 || insn.code == 0x2c || insn.code == 0x84 || insn.code == 0x8c,
    ensures
        gives(step(insn, pkt, st, pc), st, pc, r),
        insn.code == 0x04 ==> r == (st.acc + insn.k) % 0x1_0000_0000,
        insn.code == 0x0c ==> r == (st.acc + st.x) % 0x1_0000_0000,
        insn.code == 0x14 ==> (r + insn.k) % 0x1_0000_0000 == st.acc,
        insn.code == 0x1c ==> (r + st.x) % 0x1_0000_0000 == st.acc,
        insn.code == 0x24 ==> r == (st.acc * insn.k) % 0x1_0000_0000,
        insn.code == 0x2c ==> r == (st.acc * st.x) % 0x1_0000_0000,
        insn.code == 0x84 || insn.code == 0x8c ==> (r + st.acc) % 0x1_0000_0000 == 0,
{
    lemma_alu_codes();
    let v = if insn.uses_x() {
        st.x
    } else {
        insn.k
    };
    alu_result(insn.alu_op(), st.acc, v)
}

/// A quotient is the largest number that the operand goes into the accumulator,
/// and a remainder is what is left; dividing by zero ends the program with zero.
pub proof fn law_quotients(insn: BpfInsn, pkt: Seq<u8>, st: VmState, pc: int) -> (r: u32)
    requires
        insn.code == 0x34 || insn.code == 0x3c || insn.code == 0x94 || insn.code == 0x9c,
    ensures
        ({
            let v = if insn.code == 0x34 || insn.code == 0x94 {
                insn.k
            } else {
                st.x
            };
            let s = step(insn, pkt, st, pc);
            &&& v == 0 ==> s == (Step::Halt { state: st, value: 0 })
            &&& v != 0 ==> gives(s, st, pc, r)
            &&& v != 0 && (insn.code == 0x34 || insn.code == 0x3c) ==> r * v <= st.acc < r * v + v
            &&& v != 0 && (insn.code == 0x94 || insn.code == 0x9c) ==> r < v && st.acc == (st.acc as int / v as int) * v + r
        }),
{
    lemma_alu_codes();
    let v = if insn.uses_x() {
        st.x
    } else {
        insn.k
    };
    let a = st.acc;
    if v != 0 {
        let q = (a / v) as int;
        let m = (a % v) as int;
        assert(a == q * v + m && 0 <= m < v && q >= 0) by (nonlinear_arith)
            requires
                v > 0,
                q == (a / v) as int,
                m == (a % v) as int,
        ;
    }
    alu_result(insn.alu_op(), st.acc, v)
}

/// Conjunction, disjunction and exclusive disjunction work on each bit alone.
pub proof fn law_bitwise(insn: BpfInsn, pkt: Seq<u8>, st: VmState, pc: int) -> (r: u32)
    requires
        insn.code == 0x44 || insn.code == 0x4c || insn.code == 0x54 || insn.code == 0x5c
            || insn.code == 0xa4 || insn.code == 0xac,
    ensures
        gives(step(insn, pkt, st, pc), st, pc, r),
        ({
            let v = if insn.code == 0x44 || insn.code == 0x54 || insn.code == 0xa4 {
                insn.k
            } else {
                st.x
            };
            forall|i: u32|
                i < 32 ==> #[trigger] bit_of(r, i) == (if insn.code == 0x44 || insn.code == 0x4c {
                    bit_of(st.acc, i) || bit_of(v, i)
                } else if insn.code == 0x54 || insn.code == 0x5c {
                    bit_of(st.acc, i) && bit_of(v, i)
                } else {
                    bit_of(st.acc, i) != bit_of(v, i)
                })
        }),
{
    lemma_alu_codes();
    let a = st.acc;
    let v = if insn.uses_x() {
        st.x
    } else {
        insn.k
    };
    assert forall|i: u32| i < 32 implies (#[trigger] bit_of(a | v, i) == (bit_of(a, i) || bit_of(v, i))
        && bit_of(a & v, i) == (bit_of(a, i) && bit_of(v, i)) && bit_of(a ^ v, i) == (bit_of(a, i)
        != bit_of(v, i))) by {
        assert((((a | v) >> i) & 1 == 1) == ((a >> i) & 1 == 1 || (v >> i) & 1 == 1) && (((a & v) >> i)
            & 1 == 1) == ((a >> i) & 1 == 1 && (v >> i) & 1 == 1) && (((a ^ v) >> i) & 1 == 1) == (((a
            >> i) & 1 == 1) != ((v >> i) & 1 == 1))) by (bit_vector)
            requires
                i < 32,
        ;
    }
    assert forall|i: u32| i < 32 implies #[trigger] bit_of(a & v, i) == (bit_of(a, i) && bit_of(v, i)) by {
        assert(bit_of(a | v, i) == (bit_of(a, i) || bit_of(v, i)));
    }
    assert forall|i: u32| i < 32 implies #[trigger] bit_of(a ^ v, i) == (bit_of(a, i) != bit_of(v, i)) by {
        assert(bit_of(a | v, i) == (bit_of(a, i) || bit_of(v, i)));
    }
    alu_result(insn.alu_op(), a, v)
}

/// A shift moves each bit by the operand; bits from outside the word are zero.
pub proof fn law_shifts(insn: BpfInsn, pkt: Seq<u8>, st: VmState, pc: int) -> (r: u32)
    requires
        insn.code == 0x64 || insn.code == 0x6c || insn.code == 0x74 || insn.code == 0x7c,
    ensures
        gives(step(insn, pkt, st, pc), st, pc, r),
        ({
            let v = if insn.code == 0x64 || insn.code == 0x74 {
                insn.k
            } else {
                st.x
            };
            forall|i: u32|
                i < 32 ==> #[trigger] bit_of(r, i) == (if insn.code == 0x64 || insn.code == 0x6c {
                    v <= i && bit_of(st.acc, (i - v) as u32)
                } else {
                    i + v < 32 && bit_of(st.acc, (i + v) as u32)
                })
        }),
{
    lemma_alu_codes();
    let a = st.acc;
    let v = if insn.uses_x() {
        st.x
    } else {
        insn.k
    };
    let r = alu_result(insn.alu_op(), a, v);
    assert forall|i: u32| i < 32 implies #[trigger] bit_of(r, i) == (if insn.code == 0x64 || insn.code
        == 0x6c {
        v <= i && bit_of(a, (i - v) as u32)
    } else {
        i + v < 32 && bit_of(a, (i + v) as u32)
    }) by {
        let down = (i - v) as u32;
        let up = (i + v) as u32;
        assert((0u32 >> i) & 1 == 0) by (bit_vector);
        if v < 32 {
            assert(v <= i ==> (((a << v) >> i) & 1 == 1) == ((a >> (i - v) as u32) & 1 == 1)) by (bit_vector)
                requires
                    i < 32,
                    v < 32,
            ;
            assert(i < v ==> ((a << v) >> i) & 1 == 0) by (bit_vector)
                requires
                    i < 32,
                    v < 32,
            ;
            assert(i + v < 32 ==> (((a >> v) >> i) & 1 == 1) == ((a >> (i + v) as u32) & 1 == 1)) by (bit_vector)
                requires
                    i < 32,
                    v < 32,
            ;
            assert(i + v >= 32 ==> ((a >> v) >> i) & 1 == 0) by (bit_vector)
                requires
                    i < 32,
                    v < 32,
            ;
        }
    }
    r
}

/// The codes of loads, stores, transfers and returns, taken apart.
proof fn lemma_other_codes()
    ensures
        0x20u16 & 0x07 == 0x00 && 0x20u16 & 0x18 == 0x00 && 0x20u16 & 0xe0 == 0x20 && 0x20u16 & 0xf0 == 0x20 && 0x20u16 & 0x08 == 0x00,
        0x28u16 & 0x07 == 0x00 && 0x28u16 & 0x18 == 0x08 && 0x28u16 & 0xe0 == 0x20 && 0x28u16 & 0xf0 == 0x20 && 0x28u16 & 0x08 == 0x08,
        0x30u16 & 0x07 == 0x00 && 0x30u16 & 0x18 == 0x10 && 0x30u16 & 0xe0 == 0x20 && 0x30u16 & 0xf0 == 0x30 && 0x30u16 & 0x08 == 0x00,
        0x40u16 & 0x07 == 0x00 && 0x40u16 & 0x18 == 0x00 && 0x40u16 & 0xe0 == 0x40 && 0x40u16 & 0xf0 == 0x40 && 0x40u16 & 0x08 == 0x00,
        0x48u16 & 0x07 == 0x00 && 0x48u16 & 0x18 == 0x08 && 0x48u16 & 0xe0 == 0x40 && 0x48u16 & 0xf0 == 0x40 && 0x48u16 & 0x08 == 0x08,
        0x50u16 & 0x07 == 0x00 && 0x50u16 & 0x18 == 0x10 && 0x50u16 & 0xe0 == 0x40 && 0x50u16 & 0xf0 == 0x50 && 0x50u16 & 0x08 == 0x00,
        0x00u16 & 0x07 == 0x00 && 0x00u16 & 0x18 == 0x00 && 0x00u16 & 0xe0 == 0x00 && 0x00u16 & 0xf0 == 0x00 && 0x00u16 & 0x08 == 0x00,
        0x60u16 & 0x07 == 0x00 && 0x60u16 & 0x18 == 0x00 && 0x60u16 & 0xe0 == 0x60 && 0x60u16 & 0xf0 == 0x60 && 0x60u16 & 0x08 == 0x00,
        0x80u16 & 0x07 == 0x00 && 0x80u16 & 0x18 == 0x00 && 0x80u16 & 0xe0 == 0x80 && 0x80u16 & 0xf0 == 0x80 && 0x80u16 & 0x08 == 0x00,
        0x01u16 & 0x07 == 0x01 && 0x01u16 & 0x18 == 0x00 && 0x01u16 & 0xe0 == 0x00 && 0x01u16 & 0xf0 == 0x00 && 0x01u16 & 0x08 == 0x00,
        0x61u16 & 0x07 == 0x01 && 0x61u16 & 0x18 == 0x00 && 0x61u16 & 0xe0 == 0x60 && 0x61u16 & 0xf0 == 0x60 && 0x61u16 & 0x08 == 0x00,
        0x81u16 & 0x07 == 0x01 && 0x81u16 & 0x18 == 0x00 && 0x81u16 & 0xe0 == 0x80 && 0x81u16 & 0xf0 == 0x80 && 0x81u16 & 0x08 == 0x00,
        0xb1u16 & 0x07 == 0x01 && 0xb1u16 & 0x18 == 0x10 && 0xb1u16 & 0xe0 == 0xa0 && 0xb1u16 & 0xf0 == 0xb0 && 0xb1u16 & 0x08 == 0x00,
        0x02u16 & 0x07 == 0x02 && 0x02u16 & 0x18 == 0x00 && 0x02u16 & 0xe0 == 0x00 && 0x02u16 & 0xf0 == 0x00 && 0x02u16 & 0x08 == 0x00,
        0x03u16 & 0x07 == 0x03 && 0x03u16 & 0x18 == 0x00 && 0x03u16 & 0xe0 == 0x00 && 0x03u16 & 0xf0 == 0x00 && 0x03u16 & 0x08 == 0x00,
        0x07u16 & 0x07 == 0x07 && 0x07u16 & 0x18 == 0x00 && 0x07u16 & 0xe0 == 0x00 && 0x07u16 & 0xf0 == 0x00 && 0x07u16 & 0x08 == 0x00,
        0x87u16 & 0x07 == 0x07 && 0x87u16 & 0x18 == 0x00 && 0x87u16 & 0xe0 == 0x80 && 0x87u16 & 0xf0 == 0x80 && 0x87u16 & 0x08 == 0x00,
        0x06u16 & 0x07 == 0x06 && 0x06u16 & 0x18 == 0x00 && 0x06u16 & 0xe0 == 0x00 && 0x06u16 & 0xf0 == 0x00 && 0x06u16 & 0x08 == 0x00,
        0x16u16 & 0x07 == 0x06 && 0x16u16 & 0x18 == 0x10 && 0x16u16 & 0xe0 == 0x00 && 0x16u16 & 0xf0 == 0x10 && 0x16u16 & 0x08 == 0x00,
        0x0eu16 & 0x07 == 0x06 && 0x0eu16 & 0x18 == 0x08 && 0x0eu16 & 0xe0 == 0x00 && 0x0eu16 & 0xf0 == 0x00 && 0x0eu16 & 0x08 == 0x08,
{
    assert(0x20u16 & 0x07 == 0x00 && 0x20u16 & 0x18 == 0x00 && 0x20u16 & 0xe0 == 0x20
        && 0x20u16 & 0xf0 == 0x20 && 0x20u16 & 0x08 == 0x00 && 0x28u16 & 0x07 == 0x00
        && 0x28u16 & 0x18 == 0x08 && 0x28u16 & 0xe0 == 0x20 && 0x28u16 & 0xf0 == 0x20
        && 0x28u16 & 0x08 == 0x08 && 0x30u16 & 0x07 == 0x00 && 0x30u16 & 0x18 == 0x10
        && 0x30u16 & 0xe0 == 0x20 && 0x30u16 & 0xf0 == 0x30 && 0x30u16 & 0x08 == 0x00
        && 0x40u16 & 0x07 == 0x00 && 0x40u16 & 0x18 == 0x00 && 0x40u16 & 0xe0 == 0x40
        && 0x40u16 & 0xf0 == 0x40 && 0x40u16 & 0x08 == 0x00 && 0x48u16 & 0x07 == 0x00
        && 0x48u16 & 0x18 == 0x08 && 0x48u16 & 0xe0 == 0x40 && 0x48u16 & 0xf0 == 0x40
        && 0x48u16 & 0x08 == 0x08 && 0x50u16 & 0x07 == 0x00 && 0x50u16 & 0x18 == 0x10
        && 0x50u16 & 0xe0 == 0x40 && 0x50u16 & 0xf0 == 0x50 && 0x50u16 & 0x08 == 0x00
        && 0x00u16 & 0x07 == 0x00 && 0x00u16 & 0x18 == 0x00 && 0x00u16 & 0xe0 == 0x00
        && 0x00u16 & 0xf0 == 0x00 && 0x00u16 & 0x08 == 0x00 && 0x60u16 & 0x07 == 0x00
        && 0x60u16 & 0x18 == 0x00 && 0x60u16 & 0xe0 == 0x60 && 0x60u16 & 0xf0 == 0x60
        && 0x60u16 & 0x08 == 0x00 && 0x80u16 & 0x07 == 0x00 && 0x80u16 & 0x18 == 0x00
        && 0x80u16 & 0xe0 == 0x80 && 0x80u16 & 0xf0 == 0x80 && 0x80u16 & 0x08 == 0x00
        && 0x01u16 & 0x07 == 0x01 && 0x01u16 & 0x18 == 0x00 && 0x01u16 & 0xe0 == 0x00
        && 0x01u16 & 0xf0 == 0x00 && 0x01u16 & 0x08 == 0x00 && 0x61u16 & 0x07 == 0x01
        && 0x61u16 & 0x18 == 0x00 && 0x61u16 & 0xe0 == 0x60 && 0x61u16 & 0xf0 == 0x60
        && 0x61u16 & 0x08 == 0x00 && 0x81u16 & 0x07 == 0x01 && 0x81u16 & 0x18 == 0x00
        && 0x81u16 & 0xe0 == 0x80 && 0x81u16 & 0xf0 == 0x80 && 0x81u16 & 0x08 == 0x00
        && 0xb1u16 & 0x07 == 0x01 && 0xb1u16 & 0x18 == 0x10 && 0xb1u16 & 0xe0 == 0xa0
        && 0xb1u16 & 0xf0 == 0xb0 && 0xb1u16 & 0x08 == 0x00 && 0x02u16 & 0x07 == 0x02
        && 0x02u16 & 0x18 == 0x00 && 0x02u16 & 0xe0 == 0x00 && 0x02u16 & 0xf0 == 0x00
        && 0x02u16 & 0x08 == 0x00 && 0x03u16 & 0x07 == 0x03 && 0x03u16 & 0x18 == 0x00
        && 0x03u16 & 0xe0 == 0x00 && 0x03u16 & 0xf0 == 0x00 && 0x03u16 & 0x08 == 0x00
        && 0x07u16 & 0x07 == 0x07 && 0x07u16 & 0x18 == 0x00 && 0x07u16 & 0xe0 == 0x00
        && 0x07u16 & 0xf0 == 0x00 && 0x07u16 & 0x08 == 0x00 && 0x87u16 & 0x07 == 0x07
        && 0x87u16 & 0x18 == 0x00 && 0x87u16 & 0xe0 == 0x80 && 0x87u16 & 0xf0 == 0x80
        && 0x87u16 & 0x08 == 0x00 && 0x06u16 & 0x07 == 0x06 && 0x06u16 & 0x18 == 0x00
        && 0x06u16 & 0xe0 == 0x00 && 0x06u16 & 0xf0 == 0x00 && 0x06u16 & 0x08 == 0x00
        && 0x16u16 & 0x07 == 0x06 && 0x16u16 & 0x18 == 0x10 && 0x16u16 & 0xe0 == 0x00
        && 0x16u16 & 0xf0 == 0x10 && 0x16u16 & 0x08 == 0x00 && 0x0eu16 & 0x07 == 0x06
        && 0x0eu16 & 0x18 == 0x08 && 0x0eu16 & 0xe0 == 0x00 && 0x0eu16 & 0xf0 == 0x00
        && 0x0eu16 & 0x08 == 0x08) by (bit_vector);
}

/// A load of a word takes four bytes, the first the most significant, from `k` on
/// (0x20) or from `k` behind the index register (0x40). Where the packet does
/// not reach that far the program ends with zero.
pub proof fn law_word_loads(insn: BpfInsn, pkt: Seq<u8>, st: VmState, pc: int) -> (r: u32)
    requires
        insn.code == 0x20 || insn.code == 0x40,
    ensures
        ({
            let s = step(insn, pkt, st, pc);
            let at = if insn.code == 0x20 {
                insn.k as int
            } else {
                st.x + insn.k
            };
            &&& at + 4 > pkt.len() ==> s == (Step::Halt { state: st, value: 0 })
            &&& at + 4 <= pkt.len() && at <= u32::MAX ==> gives(s, st, pc, r) && r / 0x100_0000
                == pkt[at] && r / 0x1_0000 % 256 == pkt[at + 1] && r / 256 % 256 == pkt[at + 2] && r
                % 256 == pkt[at + 3]
        }),
{
    lemma_other_codes();
    let at = if insn.code == 0x20 {
        insn.k as int
    } else {
        st.x + insn.k
    };
    law_big_endian(pkt, at);
    match load_value(insn, pkt, st) {
        Some(v) => v,
        None => 0,
    }
}

/// A load of a half word takes two bytes, the first the more significant one (0x28,
/// 0x48).
pub proof fn law_half_loads(insn: BpfInsn, pkt: Seq<u8>, st: VmState, pc: int) -> (r: u32)
    requires
        insn.code == 0x28 || insn.code == 0x48,
    ensures
        ({
            let s = step(insn, pkt, st, pc);
            let at = if insn.code == 0x28 {
                insn.k as int
            } else {
                st.x + insn.k
            };
            &&& at + 2 > pkt.len() ==> s == (Step::Halt { state: st, value: 0 })
            &&& at + 2 <= pkt.len() && at <= u32::MAX ==> gives(s, st, pc, r) && r / 256
                == pkt[at] && r % 256 == pkt[at + 1]
        }),
{
    lemma_other_codes();
    let at = if insn.code == 0x28 {
        insn.k as int
    } else {
        st.x + insn.k
    };
    law_big_endian(pkt, at);
    match load_value(insn, pkt, st) {
        Some(v) => v,
        None => 0,
    }
}

/// A load of a byte takes one (0x30, 0x50).
pub proof fn law_byte_loads(insn: BpfInsn, pkt: Seq<u8>, st: VmState, pc: int) -> (r: u32)
    requires
        insn.code == 0x30 || insn.code == 0x50,
    ensures
        ({
            let s = step(insn, pkt, st, pc);
            let at = if insn.code == 0x30 {
                insn.k as int
            } else {
                st.x + insn.k
            };
            &&& at + 1 > pkt.len() ==> s == (Step::Halt { state: st, value: 0 })
            &&& at + 1 <= pkt.len() && at <= u32::MAX ==> gives(s, st, pc, r) && r
                == pkt[at]
        }),
{
    lemma_other_codes();
    let at = if insn.code == 0x30 {
        insn.k as int
    } else {
        st.x + insn.k
    };
    law_big_endian(pkt, at);
    match load_value(insn, pkt, st) {
        Some(v) => v,
        None => 0,
    }
}

/// The other loads: a constant (0x00, 0x01), the length of the packet (0x80,
/// 0x81), one of sixteen memory words (0x60, 0x61), or four times the low half
/// of a packet byte (0xb1). Odd codes load the index register, even ones the
/// accumulator. A word or byte that is not there ends the program with zero.
pub proof fn law_other_loads(insn: BpfInsn, pkt: Seq<u8>, st: VmState, pc: int)
    ensures
        ({
            let s = step(insn, pkt, st, pc);
            let none = Step::Halt { state: st, value: 0 };
            let k = insn.k as int;
            &&& insn.code == 0x00 ==> gives(s, st, pc, insn.k)
            &&& insn.code == 0x80 ==> gives(s, st, pc, pkt.len() as u32)
            &&& insn.code == 0x60 && k < 16 ==> gives(s, st, pc, st.mem[k])
            &&& insn.code == 0x60 && k >= 16 ==> s == none
            &&& insn.code == 0x01 ==> s == (Step::Continue {
                state: VmState { acc: st.acc, x: insn.k, mem: st.mem },
                pc: pc + 1,
            })
            &&& insn.code == 0x81 ==> s == (Step::Continue {
                state: VmState { acc: st.acc, x: pkt.len() as u32, mem: st.mem },
                pc: pc + 1,
            })
            &&& insn.code == 0x61 && k < 16 ==> s == (Step::Continue {
                state: VmState { acc: st.acc, x: st.mem[k], mem: st.mem },
                pc: pc + 1,
            })
            &&& insn.code == 0x61 && k >= 16 ==> s == none
            &&& insn.code == 0xb1 && k < pkt.len() ==> s == (Step::Continue {
                state: VmState { acc: st.acc, x: (4 * (pkt[k] as int % 16)) as u32, mem: st.mem },
                pc: pc + 1,
            })
            &&& insn.code == 0xb1 && k >= pkt.len() ==> s == none
        }),
{
    lemma_other_codes();
    if insn.code == 0xb1 && insn.k < pkt.len() {
        let v = pkt[insn.k as int] as u32;
        assert((v & 0x0f) << 2 == 4 * (v % 16)) by (bit_vector)
            requires
                v < 256,
        ;
    }
}

/// A store puts the accumulator (0x02) or the index register (0x03) into one of
/// sixteen memory words; a transfer makes the index register the accumulator
/// (0x07) or the other way round (0x87); a return ends the program with `k`
/// (0x06), the accumulator (0x16) or the index register (0x0e).
pub proof fn law_stores_and_returns(insn: BpfInsn, pkt: Seq<u8>, st: VmState, pc: int)
    ensures
        ({
            let s = step(insn, pkt, st, pc);
            let k = insn.k as int;
            &&& (insn.code == 0x02 || insn.code == 0x03) && k >= 16 ==> s == (Step::Halt {
                state: st,
                value: 0,
            })
            &&& insn.code == 0x02 && k < 16 ==> s == (Step::Continue {
                state: VmState { acc: st.acc, x: st.x, mem: st.mem.update(k, st.acc) },
                pc: pc + 1,
            })
            &&& insn.code == 0x03 && k < 16 ==> s == (Step::Continue {
                state: VmState { acc: st.acc, x: st.x, mem: st.mem.update(k, st.x) },
                pc: pc + 1,
            })
            &&& insn.code == 0x07 ==> s == (Step::Continue {
                state: VmState { acc: st.acc, x: st.acc, mem: st.mem },
                pc: pc + 1,
            })
            &&& insn.code == 0x87 ==> s == (Step::Continue {
                state: VmState { acc: st.x, x: st.x, mem: st.mem },
                pc: pc + 1,
            })
            &&& insn.code == 0x06 ==> s == (Step::Halt { state: st, value: insn.k })
            &&& insn.code == 0x16 ==> s == (Step::Halt { state: st, value: st.acc })
            &&& insn.code == 0x0e ==> s == (Step::Halt { state: st, value: st.x })
        }),
{
    lemma_other_codes();
}

/// A program starts at its first instruction with zeros everywhere, goes where
/// each instruction says, and returns what the one that ends it says; running
/// past the end returns the accumulator. Any value but zero accepts.
pub proof fn law_programs(program: Seq<BpfInsn>, pkt: Seq<u8>, st: VmState, pc: int)
    requires
        0 <= pc,
    ensures
        verdict(program, pkt) == execute(
            program,
            pkt,
            VmState { acc: 0, x: 0, mem: Seq::new(16, |i: int| 0u32) },
            0,
        ).1,
        accepts(program, pkt) <==> verdict(program, pkt) > 0,
        pc >= program.len() ==> execute(program, pkt, st, pc).1 == st.acc,
        pc < program.len() ==> (match step(program[pc], pkt, st, pc) {
            Step::Continue { state, pc: next } => next > pc ==> execute(program, pkt, st, pc)
                == execute(program, pkt, state, next),
            Step::Halt { value, .. } => execute(program, pkt, st, pc).1 == value,
        }),
{
}

} // verus!
