//! The execution engine: a sequential interpreter over a register file, a
//! 64 KiB working store, and a free-space list for that store.

use vstd::prelude::*;

use crate::instruction::{high8, lemma_pack16_high8_low8, low8, pack16, Instruction};

verus! {

/// Size of the working store in bytes.
pub const STACK_SIZE: usize = 65536;

/// Number of registers.
pub const REGISTERS: usize = 16;

/// The reason a machine stopped with a fault. A faulted machine never
/// resumes; its state stays frozen for inspection.
#[derive(Clone, Copy, PartialEq, Eq, Structural, Debug)]
pub enum Fault {
    /// A `Div` instruction met a zero divisor register.
    DivisionByZero,
    /// An `SPush` instruction found the free list empty.
    StackExhausted,
}

/// Execution status of the machine.
#[derive(Clone, Copy, PartialEq, Eq, Structural, Debug)]
pub enum Status {
    /// The machine can take further steps.
    Running,
    /// The machine stopped normally (a `Halt`, or the program counter ran
    /// off the end of the program).
    Halted,
    /// The machine stopped on a fault and will not resume.
    Faulted(Fault),
}

/// Mathematical model of the whole machine state.
#[verifier::ext_equal]
pub ghost struct VmModel {
    /// The 16 register cells.
    pub registers: Seq<u8>,
    /// The 65536-byte working store.
    pub stack: Seq<u8>,
    /// Free-space runs `(start, length)` of the working store.
    pub memory_map: Seq<(int, int)>,
    /// The program being executed.
    pub program: Seq<Instruction>,
    /// The current instruction index.
    pub pc: int,
    /// Whether the machine is running, halted, or faulted.
    pub status: Status,
}

impl VmModel {
    /// Structural well-formedness: sizes are fixed, every instruction's
    /// register operands are in range, and every free run lies inside the
    /// store and is non-empty.
    pub open spec fn wf(self) -> bool {
        &&& self.registers.len() == 16
        &&& self.stack.len() == 65536
        &&& self.program.len() < usize::MAX
        &&& self.pc <= usize::MAX
        &&& 0 <= self.pc
        &&& forall|i: int| 0 <= i < self.program.len() ==> (#[trigger] self.program[i]).wf()
        &&& forall|i: int|
            0 <= i < self.memory_map.len() ==> {
                let run = #[trigger] self.memory_map[i];
                1 <= run.1 && 0 <= run.0 && run.0 + run.1 <= 65536
            }
    }

    /// The machine state at construction: everything zeroed and the whole
    /// store in one free run.
    pub open spec fn init(program: Seq<Instruction>) -> VmModel {
        VmModel {
            registers: Seq::new(16, |i: int| 0u8),
            stack: Seq::new(65536, |i: int| 0u8),
            memory_map: seq![(0int, 65536int)],
            program,
            pc: 0,
            status: Status::Running,
        }
    }
}

/// An 8-bit sum, wrapping modulo 256.
pub open spec fn wrap_add(a: u8, b: u8) -> u8 {
    (((a + b) % 256) as u8)
}

/// An 8-bit difference, wrapping modulo 256.
pub open spec fn wrap_sub(a: u8, b: u8) -> u8 {
    (((a + 256 - b) % 256) as u8)
}

/// An 8-bit product, wrapping modulo 256.
pub open spec fn wrap_mul(a: u8, b: u8) -> u8 {
    (((a * b) % 256) as u8)
}

/// The comparison code stored by `Cmp`: 0 if less, 1 if equal, 2 if greater.
pub open spec fn cmp_code(a: u8, b: u8) -> u8 {
    if a < b {
        0u8
    } else if a == b {
        1u8
    } else {
        2u8
    }
}

/// One step of the machine. A machine that is not running is left unchanged;
/// a program counter past the end of the program halts the machine; otherwise
/// the instruction at the program counter is applied.
pub open spec fn spec_step(v: VmModel) -> VmModel {
    if !(v.status is Running) {
        v
    } else if v.pc >= v.program.len() {
        VmModel { status: Status::Halted, ..v }
    } else {
        match v.program[v.pc] {
            Instruction::Load(r, value) => VmModel {
                registers: v.registers.update(r as int, value),
                pc: v.pc + 1,
                ..v
            },
            Instruction::Add(d, a, b) => VmModel {
                registers: v.registers.update(
                    d as int,
                    wrap_add(v.registers[a as int], v.registers[b as int]),
                ),
                pc: v.pc + 1,
                ..v
            },
            Instruction::Sub(d, a, b) => VmModel {
                registers: v.registers.update(
                    d as int,
                    wrap_sub(v.registers[a as int], v.registers[b as int]),
                ),
                pc: v.pc + 1,
                ..v
            },
            Instruction::Mul(d, a, b) => VmModel {
                registers: v.registers.update(
                    d as int,
                    wrap_mul(v.registers[a as int], v.registers[b as int]),
                ),
                pc: v.pc + 1,
                ..v
            },
            Instruction::Div(d, a, b) => {
                if v.registers[b as int] == 0 {
                    VmModel { status: Status::Faulted(Fault::DivisionByZero), ..v }
                } else {
                    VmModel {
                        registers: v.registers.update(
                            d as int,
                            (v.registers[a as int] / v.registers[b as int]) as u8,
                        ),
                        pc: v.pc + 1,
                        ..v
                    }
                }
            },
            Instruction::Cmp(d, a, b) => VmModel {
                registers: v.registers.update(
                    d as int,
                    cmp_code(v.registers[a as int], v.registers[b as int]),
                ),
                pc: v.pc + 1,
                ..v
            },
            Instruction::SPush(h, l, src) => {
                if v.memory_map.len() == 0 {
                    VmModel { status: Status::Faulted(Fault::StackExhausted), ..v }
                } else {
                    let start = v.memory_map[0].0;
                    let len = v.memory_map[0].1;
                    VmModel {
                        stack: v.stack.update(start, v.registers[src as int]),
                        registers: v.registers.update(h as int, high8(start)).update(
                            l as int,
                            low8(start),
                        ),
                        memory_map: if len > 1 {
                            v.memory_map.update(0, (start + 1, len - 1))
                        } else {
                            v.memory_map.drop_first()
                        },
                        pc: v.pc + 1,
                        ..v
                    }
                }
            },
            Instruction::SCopy(h, l, d) => {
                let addr = pack16(v.registers[h as int], v.registers[l as int]);
                VmModel {
                    registers: v.registers.update(d as int, v.stack[addr]),
                    pc: v.pc + 1,
                    ..v
                }
            },
            Instruction::SPop(h, l, d) => {
                let addr = pack16(v.registers[h as int], v.registers[l as int]);
                VmModel {
                    registers: v.registers.update(d as int, v.stack[addr]),
                    memory_map: v.memory_map.push((addr, 1)),
                    pc: v.pc + 1,
                    ..v
                }
            },
            Instruction::SRep(h, l, src) => {
                let addr = pack16(v.registers[h as int], v.registers[l as int]);
                VmModel { stack: v.stack.update(addr, v.registers[src as int]), pc: v.pc + 1, ..v }
            },
            Instruction::REq(a, b) => VmModel {
                pc: v.pc + (if v.registers[a as int] == v.registers[b as int] {
                    1int
                } else {
                    2int
                }),
                ..v
            },
            Instruction::Eq(r, value) => VmModel {
                pc: v.pc + (if v.registers[r as int] == value {
                    1int
                } else {
                    2int
                }),
                ..v
            },
            Instruction::Jump16(hi, lo) => VmModel { pc: pack16(hi, lo), ..v },
            Instruction::RJump16(h, l) => VmModel {
                pc: pack16(v.registers[h as int], v.registers[l as int]),
                ..v
            },
            Instruction::Halt() => VmModel { status: Status::Halted, ..v },
        }
    }
}

/// `n` steps of the machine.
pub open spec fn spec_step_n(v: VmModel, n: nat) -> VmModel
    decreases n,
{
    if n == 0 {
        v
    } else {
        spec_step_n(spec_step(v), (n - 1) as nat)
    }
}

/// Taking one more step after `n` steps is the same as taking `n` steps from
/// the state after one step.
pub proof fn lemma_step_n_snoc(v: VmModel, n: nat)
    ensures
        spec_step_n(v, n + 1) == spec_step(spec_step_n(v, n)),
    decreases n,
{
    if n == 0 {
        assert(spec_step_n(v, 1) == spec_step(v)) by {
            reveal_with_fuel(spec_step_n, 2);
        }
    } else {
        lemma_step_n_snoc(spec_step(v), (n - 1) as nat);
        assert(spec_step_n(v, n + 1) == spec_step_n(spec_step(v), n));
        assert(spec_step_n(v, n) == spec_step_n(spec_step(v), (n - 1) as nat));
    }
}

/// One step preserves well-formedness.
pub proof fn lemma_step_preserves_wf(v: VmModel)
    requires
        v.wf(),
    ensures
        spec_step(v).wf(),
{
    if v.status is Running && v.pc < v.program.len() {
        match v.program[v.pc] {
            Instruction::SPush(h, l, src) => {
                if v.memory_map.len() > 0 {
                    assert(0 <= v.memory_map[0].0 < 65536);
                }
            },
            Instruction::SCopy(h, l, d) => {
                assert(pack16(v.registers[h as int], v.registers[l as int]) < 65536);
            },
            _ => {},
        }
    }
}

/// The virtual machine: 16 8-bit registers, a 65536-byte working store, a
/// free-space list over that store, the program, and a program counter that
/// indexes instructions (not bytes).
pub struct VM {
    stack: Vec<u8>,
    stack_memory_map: Vec<(usize, usize)>,
    registers: Vec<u8>,
    program: Vec<Instruction>,
    program_counter: usize,
    status: Status,
}

impl View for VM {
    type V = VmModel;

    closed spec fn view(&self) -> VmModel {
        VmModel {
            registers: self.registers@,
            stack: self.stack@,
            memory_map: self.stack_memory_map@.map_values(
                |run: (usize, usize)| (run.0 as int, run.1 as int),
            ),
            program: self.program@,
            pc: self.program_counter as int,
            status: self.status,
        }
    }
}

impl VM {
    /// Structural well-formedness of the machine.
    pub open spec fn wf(&self) -> bool {
        self@.wf()
    }

    /// Build a machine over `program` in its initial state: registers and
    /// store zeroed, the whole store free, the program counter at zero.
    pub fn new(program: Vec<Instruction>) -> (vm: VM)
        requires
            forall|i: int| 0 <= i < program@.len() ==> (#[trigger] program@[i]).wf(),
            program@.len() < usize::MAX,
        ensures
            vm.wf(),
            vm@ =~= VmModel::init(program@),
    {
        let mut stack: Vec<u8> = Vec::new();
        let mut i: usize = 0;
        while i < STACK_SIZE
            invariant
                i <= 65536,
                stack@ =~= Seq::new(i as nat, |j: int| 0u8),
            decreases 65536 - i,
        {
            stack.push(0);
            i = i + 1;
        }
        let mut registers: Vec<u8> = Vec::new();
        let mut j: usize = 0;
        while j < REGISTERS
            invariant
                j <= 16,
                registers@ =~= Seq::new(j as nat, |k: int| 0u8),
            decreases 16 - j,
        {
            registers.push(0);
            j = j + 1;
        }
        let mut stack_memory_map: Vec<(usize, usize)> = Vec::new();
        stack_memory_map.push((0, STACK_SIZE));
        let vm = VM {
            stack,
            stack_memory_map,
            registers,
            program,
            program_counter: 0,
            status: Status::Running,
        };
        assert(vm@.memory_map =~= seq![(0int, 65536int)]);
        vm
    }

    /// The current execution status.
    pub fn status(&self) -> (s: Status)
        ensures
            s == self@.status,
    {
        self.status
    }

    /// The current program counter (an instruction index).
    pub fn program_counter(&self) -> (pc: usize)
        ensures
            pc as int == self@.pc,
    {
        self.program_counter
    }

    /// Read one register.
    pub fn register_value(&self, index: usize) -> (value: u8)
        requires
            self.wf(),
            index < 16,
        ensures
            value == self@.registers[index as int],
    {
        self.registers[index]
    }

    /// Read one byte of the working store.
    pub fn store_value(&self, address: usize) -> (value: u8)
        requires
            self.wf(),
            address < 65536,
        ensures
            value == self@.stack[address as int],
    {
        self.stack[address]
    }

    /// Execute the instruction at the program counter, if the machine is
    /// running and the counter is in bounds; a counter past the end halts the
    /// machine. Returns whether the machine can take a further step.
    #[verifier::rlimit(40)]
    pub fn run_once(&mut self) -> (progressing: bool)
        requires
            old(self).wf(),
        ensures
            final(self).wf(),
            final(self)@ == spec_step(old(self)@),
            progressing == (spec_step(old(self)@).status is Running),
    {
        proof {
            lemma_step_preserves_wf(old(self)@);
        }
        let ghost pre = old(self)@;
        match self.status {
            Status::Running => {},
            _ => {
                return false;
            },
        }
        if self.program_counter >= self.program.len() {
            self.status = Status::Halted;
            assert(self@ =~= spec_step(pre));
            return false;
        }
        let instruction = self.program[self.program_counter];
        match instruction {
            Instruction::Load(r, value) => {
                self.registers[r as usize] = value;
                self.program_counter = self.program_counter + 1;
                assert(self@ =~= spec_step(pre));
                true
            },
            Instruction::Add(d, a, b) => {
                let sum = self.registers[a as usize].wrapping_add(self.registers[b as usize]);
                assert(sum == wrap_add(pre.registers[a as int], pre.registers[b as int]));
                self.registers[d as usize] = sum;
                self.program_counter = self.program_counter + 1;
                assert(self@ =~= spec_step(pre));
                true
            },
            Instruction::Sub(d, a, b) => {
                let diff = self.registers[a as usize].wrapping_sub(self.registers[b as usize]);
                assert(diff == wrap_sub(pre.registers[a as int], pre.registers[b as int]));
                self.registers[d as usize] = diff;
                self.program_counter = self.program_counter + 1;
                assert(self@ =~= spec_step(pre));
                true
            },
            Instruction::Mul(d, a, b) => {
                let product = self.registers[a as usize].wrapping_mul(self.registers[b as usize]);
                assert(product == wrap_mul(pre.registers[a as int], pre.registers[b as int]));
                self.registers[d as usize] = product;
                self.program_counter = self.program_counter + 1;
                assert(self@ =~= spec_step(pre));
                true
            },
            Instruction::Div(d, a, b) => {
                let divisor = self.registers[b as usize];
                if divisor == 0 {
                    self.status = Status::Faulted(Fault::DivisionByZero);
                    assert(self@ =~= spec_step(pre));
                    false
                } else {
                    self.registers[d as usize] = self.registers[a as usize] / divisor;
                    self.program_counter = self.program_counter + 1;
                    assert(self@ =~= spec_step(pre));
                    true
                }
            },
            Instruction::Cmp(d, a, b) => {
                let value_a = self.registers[a as usize];
                let value_b = self.registers[b as usize];
                let code: u8 = if value_a < value_b {
                    0
                } else if value_a == value_b {
                    1
                } else {
                    2
                };
                self.registers[d as usize] = code;
                self.program_counter = self.program_counter + 1;
                assert(self@ =~= spec_step(pre));
                true
            },
            Instruction::SPush(h, l, src) => {
                if self.stack_memory_map.len() == 0 {
                    self.status = Status::Faulted(Fault::StackExhausted);
                    assert(self@ =~= spec_step(pre));
                    false
                } else {
                    let run = self.stack_memory_map[0];
                    let start = run.0;
                    let len = run.1;
                    assert((start as int, len as int) == pre.memory_map[0]);
                    self.stack[start] = self.registers[src as usize];
                    self.registers[h as usize] = ((start / 256) % 256) as u8;
                    self.registers[l as usize] = (start % 256) as u8;
                    if len > 1 {
                        self.stack_memory_map[0] = (start + 1, len - 1);
                    } else {
                        self.stack_memory_map.remove(0);
                    }
                    self.program_counter = self.program_counter + 1;
                    assert(self@ =~= spec_step(pre));
                    true
                }
            },
            Instruction::SCopy(h, l, d) => {
                let address = (self.registers[h as usize] as usize) * 256 + (self.registers[
                    l as usize
                ] as usize);
                self.registers[d as usize] = self.stack[address];
                self.program_counter = self.program_counter + 1;
                assert(self@ =~= spec_step(pre));
                true
            },
            Instruction::SPop(h, l, d) => {
                let address = (self.registers[h as usize] as usize) * 256 + (self.registers[
                    l as usize
                ] as usize);
                let value = self.stack[address];
                self.stack_memory_map.push((address, 1));
                self.registers[d as usize] = value;
                self.program_counter = self.program_counter + 1;
                assert(self@ =~= spec_step(pre));
                true
            },
            Instruction::SRep(h, l, src) => {
                let address = (self.registers[h as usize] as usize) * 256 + (self.registers[
                    l as usize
                ] as usize);
                self.stack[address] = self.registers[src as usize];
                self.program_counter = self.program_counter + 1;
                assert(self@ =~= spec_step(pre));
                true
            },
            Instruction::REq(a, b) => {
                if self.registers[a as usize] != self.registers[b as usize] {
                    self.program_counter = self.program_counter + 2;
                } else {
                    self.program_counter = self.program_counter + 1;
                }
                assert(self@ =~= spec_step(pre));
                true
            },
            Instruction::Eq(r, value) => {
                if self.registers[r as usize] != value {
                    self.program_counter = self.program_counter + 2;
                } else {
                    self.program_counter = self.program_counter + 1;
                }
                assert(self@ =~= spec_step(pre));
                true
            },
            Instruction::Jump16(hi, lo) => {
                self.program_counter = (hi as usize) * 256 + (lo as usize);
                assert(self@ =~= spec_step(pre));
                true
            },
            Instruction::RJump16(h, l) => {
                self.program_counter = (self.registers[h as usize] as usize) * 256 + (self.registers[
                    l as usize
                ] as usize);
                assert(self@ =~= spec_step(pre));
                true
            },
            Instruction::Halt() => {
                self.status = Status::Halted;
                assert(self@ =~= spec_step(pre));
                false
            },
        }
    }

    /// Step the machine until it halts or faults. The final state is some
    /// number of steps from the initial one, and when this returns the
    /// machine is no longer running — except for a program still running
    /// after `u64::MAX` steps, a bound the loop carries so that it provably
    /// terminates.
    pub fn run(&mut self)
        requires
            old(self).wf(),
        ensures
            final(self).wf(),
            exists|n: nat|
                final(self)@ == spec_step_n(old(self)@, n) && (!(final(self)@.status is Running)
                    || n == u64::MAX),
    {
        let ghost mut n: nat = 0;
        let mut fuel: u64 = u64::MAX;
        loop
            invariant
                self.wf(),
                self@ == spec_step_n(old(self)@, n),
                n + fuel == u64::MAX,
            ensures
                self.wf(),
                exists|m: nat|
                    self@ == spec_step_n(old(self)@, m) && (!(self@.status is Running) || m
                        == u64::MAX),
            decreases fuel,
        {
            if fuel == 0 {
                break;
            }
            let progressing = self.run_once();
            proof {
                lemma_step_n_snoc(old(self)@, n);
                n = n + 1;
            }
            fuel = fuel - 1;
            if !progressing {
                break;
            }
        }
    }

    /// The number of runs on the free list.
    pub fn free_run_count(&self) -> (count: usize)
        ensures
            count as int == self@.memory_map.len(),
    {
        self.stack_memory_map.len()
    }

    /// One run `(start, length)` of the free list.
    pub fn free_run(&self, index: usize) -> (run: (usize, usize))
        requires
            index < self@.memory_map.len(),
        ensures
            (run.0 as int, run.1 as int) == self@.memory_map[index as int],
    {
        self.stack_memory_map[index]
    }
}

/// The number of free bytes that a free list describes: the sum of its run
/// lengths.
pub open spec fn free_len(runs: Seq<(int, int)>) -> int
    decreases runs.len(),
{
    if runs.len() == 0 {
        0
    } else {
        free_len(runs.drop_last()) + runs.last().1
    }
}

/// Dropping the first run removes exactly its length from the free total.
pub proof fn lemma_free_len_drop_first(runs: Seq<(int, int)>)
    requires
        runs.len() > 0,
    ensures
        free_len(runs.drop_first()) == free_len(runs) - runs[0].1,
    decreases runs.len(),
{
    if runs.len() == 1 {
        assert(runs.drop_first() =~= Seq::<(int, int)>::empty());
        assert(runs.drop_last() =~= Seq::<(int, int)>::empty());
        assert(free_len(runs) == free_len(runs.drop_last()) + runs.last().1);
        assert(runs.last() == runs[0]);
    } else {
        let shorter = runs.drop_last();
        assert(runs.drop_first().drop_last() =~= shorter.drop_first());
        lemma_free_len_drop_first(shorter);
        assert(runs.drop_first().last() == runs.last());
        assert(free_len(runs) == free_len(shorter) + runs.last().1);
        assert(free_len(runs.drop_first()) == free_len(shorter.drop_first()) + runs.last().1);
        assert(shorter[0] == runs[0]);
    }
}

/// Replacing the first run changes the free total by the difference of the
/// run lengths.
pub proof fn lemma_free_len_update_first(runs: Seq<(int, int)>, run: (int, int))
    requires
        runs.len() > 0,
    ensures
        free_len(runs.update(0, run)) == free_len(runs) - runs[0].1 + run.1,
    decreases runs.len(),
{
    if runs.len() == 1 {
        assert(runs.update(0, run).drop_last() =~= Seq::<(int, int)>::empty());
        assert(runs.drop_last() =~= Seq::<(int, int)>::empty());
    } else {
        assert(runs.update(0, run).drop_last() =~= runs.drop_last().update(0, run));
        lemma_free_len_update_first(runs.drop_last(), run);
        assert(runs.update(0, run).last() == runs.last());
    }
}

/// Appending a run adds exactly its length to the free total.
pub proof fn lemma_free_len_push(runs: Seq<(int, int)>, run: (int, int))
    ensures
        free_len(runs.push(run)) == free_len(runs) + run.1,
{
    assert(runs.push(run).drop_last() =~= runs);
}

/// A `Div` instruction whose divisor register holds zero faults with
/// `DivisionByZero` and changes nothing else: the registers — the
/// destination register among them — the store, and the program counter all
/// keep their values.
pub proof fn lemma_div_by_zero_faults(v: VmModel, d: u8, a: u8, b: u8)
    requires
        v.wf(),
        v.status is Running,
        v.pc < v.program.len(),
        v.program[v.pc] == Instruction::Div(d, a, b),
        v.registers[b as int] == 0,
    ensures
        spec_step(v).status == Status::Faulted(Fault::DivisionByZero),
        spec_step(v).registers == v.registers,
        spec_step(v).stack == v.stack,
        spec_step(v).memory_map == v.memory_map,
        spec_step(v).pc == v.pc,
{
}

/// `Eq` skips exactly one instruction when the register differs from the
/// byte, and none when they are equal; registers, store and free list are
/// untouched and the machine keeps running.
pub proof fn lemma_eq_skip(v: VmModel, r: u8, value: u8)
    requires
        v.wf(),
        v.status is Running,
        v.pc < v.program.len(),
        v.program[v.pc] == Instruction::Eq(r, value),
    ensures
        spec_step(v).pc == v.pc + (if v.registers[r as int] == value {
            1int
        } else {
            2int
        }),
        spec_step(v).registers == v.registers,
        spec_step(v).stack == v.stack,
        spec_step(v).memory_map == v.memory_map,
        spec_step(v).status is Running,
{
}

/// `REq` skips exactly one instruction when the two registers differ, and
/// none when they are equal; registers, store and free list are untouched
/// and the machine keeps running.
pub proof fn lemma_req_skip(v: VmModel, a: u8, b: u8)
    requires
        v.wf(),
        v.status is Running,
        v.pc < v.program.len(),
        v.program[v.pc] == Instruction::REq(a, b),
    ensures
        spec_step(v).pc == v.pc + (if v.registers[a as int] == v.registers[b as int] {
            1int
        } else {
            2int
        }),
        spec_step(v).registers == v.registers,
        spec_step(v).stack == v.stack,
        spec_step(v).memory_map == v.memory_map,
        spec_step(v).status is Running,
{
}

/// Allocation and deallocation are consistent for a single outstanding
/// allocation: an `SPush` followed by an `SPop` through the same (distinct)
/// address registers leaves the pushed value in the destination register,
/// the address registers holding the bytes of the address that was
/// allocated, and a free list covering the same total free length as before
/// the push — though its exact run layout may differ, since returned bytes
/// are appended without coalescing.
pub proof fn lemma_push_pop_lifo(v: VmModel, h: u8, l: u8, src: u8, dst: u8)
    requires
        v.wf(),
        v.status is Running,
        v.pc + 1 < v.program.len(),
        v.program[v.pc] == Instruction::SPush(h, l, src),
        v.program[v.pc + 1] == Instruction::SPop(h, l, dst),
        v.memory_map.len() > 0,
        h != l,
    ensures
        ({
            let pushed = spec_step(v);
            let popped = spec_step(pushed);
            let addr = v.memory_map[0].0;
            &&& pushed.registers[h as int] == high8(addr)
            &&& pushed.registers[l as int] == low8(addr)
            &&& pushed.stack[addr] == v.registers[src as int]
            &&& popped.registers[dst as int] == v.registers[src as int]
            &&& popped.status is Running
            &&& free_len(popped.memory_map) == free_len(v.memory_map)
        }),
{
    let pushed = spec_step(v);
    let popped = spec_step(pushed);
    let addr = v.memory_map[0].0;
    let len0 = v.memory_map[0].1;
    assert(0 <= addr < 65536 && 1 <= len0);
    lemma_pack16_high8_low8(addr);
    assert(pushed.status is Running);
    assert(pushed.pc == v.pc + 1);
    assert(pack16(pushed.registers[h as int], pushed.registers[l as int]) == addr);
    if len0 > 1 {
        lemma_free_len_update_first(v.memory_map, (addr + 1, len0 - 1));
    } else {
        lemma_free_len_drop_first(v.memory_map);
    }
    assert(free_len(pushed.memory_map) == free_len(v.memory_map) - 1);
    lemma_free_len_push(pushed.memory_map, (addr, 1));
}

} // verus!
