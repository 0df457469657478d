use vstd::prelude::*;
use crate::basic::ir::{IrModule, IrFunction, IrBlock, IrInstr, IrTerminator, VReg, block_regs_below, instr_regs_below};
use crate::basic::regalloc::StackAllocator;
use crate::text::{owned, cat, push_decimal, push_signed_decimal, decimal, signed_decimal, push_char};
use vstd::string::StringExecFns;

verus! {

/// Writes x86-64 assembly (Intel syntax) for a module; every register lives
/// in its stack slot.
pub struct Codegen {
    output: String,
    alloc: StackAllocator,
}

/// A line of output.
pub open spec fn ln(s: Seq<char>) -> Seq<char> {
    s.push('\n')
}

/// The stack operand of a register: its slot `8 * (v + 1)` below `rbp`.
pub open spec fn slot(v: nat) -> Seq<char> {
    "[rbp-"@ + decimal((v + 1) * 8) + "]"@
}

/// Loads register `v` into the machine register `reg`.
pub open spec fn load_text(reg: Seq<char>, v: nat) -> Seq<char> {
    ln("  mov "@ + reg + ", "@ + slot(v))
}

/// Loads `a` into `rax` and `b` into `rcx`.
pub open spec fn load_pair(a: nat, b: nat) -> Seq<char> {
    load_text("rax"@, a) + load_text("rcx"@, b)
}

/// Stores `rax` into `d`'s slot.
pub open spec fn store_rax(d: nat) -> Seq<char> {
    ln("  mov "@ + slot(d) + ", rax"@)
}

/// `op rax, rcx` on the two operands, result into `d`.
pub open spec fn binop_text(op: Seq<char>, d: nat, a: nat, b: nat) -> Seq<char> {
    load_pair(a, b) + ln("  "@ + op + " rax, rcx"@) + store_rax(d)
}

/// A comparison of the two operands, the flag `cc` as 0 or 1 into `d`.
pub open spec fn setcc_text(cc: Seq<char>, d: nat, a: nat, b: nat) -> Seq<char> {
    load_pair(a, b) + ln("  cmp rax, rcx"@) + ln("  "@ + cc + " al"@) + ln("  movzx rax, al"@) + store_rax(d)
}

/// The registers that carry the first six call arguments.
pub open spec fn arg_reg(i: int) -> Seq<char> {
    if i == 0 { "rdi"@ } else if i == 1 { "rsi"@ } else if i == 2 { "rdx"@ }
    else if i == 3 { "rcx"@ } else if i == 4 { "r8"@ } else { "r9"@ }
}

/// Moves the first six arguments from their slots into the argument registers.
pub open spec fn call_args_text(args: Seq<VReg>) -> Seq<char>
    decreases args.len(),
{
    if args.len() == 0 {
        Seq::empty()
    } else {
        let i = args.len() - 1;
        call_args_text(args.drop_last()) + if i < 6 {
            load_text(arg_reg(i), args.last() as nat)
        } else {
            Seq::empty()
        }
    }
}

/// The code for one instruction.
pub open spec fn instr_text(i: IrInstr) -> Seq<char> {
    match i {
        IrInstr::Const(v, val, _) => ln("  mov rax, "@ + signed_decimal(val as int)) + store_rax(v as nat),
        IrInstr::Mov(d, s) => load_text("rax"@, s as nat) + store_rax(d as nat),
        IrInstr::Add(d, a, b) => binop_text("add"@, d as nat, a as nat, b as nat),
        IrInstr::Sub(d, a, b) => binop_text("sub"@, d as nat, a as nat, b as nat),
        IrInstr::Mul(d, a, b) => binop_text("imul"@, d as nat, a as nat, b as nat),
        IrInstr::Div(d, a, b) => load_text("rax"@, a as nat) + ln("  cdq"@)
            + load_text("rcx"@, b as nat) + ln("  idiv rcx"@) + store_rax(d as nat),
        IrInstr::Eq(d, a, b) => setcc_text("sete"@, d as nat, a as nat, b as nat),
        IrInstr::Lt(d, a, b) => setcc_text("setl"@, d as nat, a as nat, b as nat),
        IrInstr::And(d, a, b) => binop_text("and"@, d as nat, a as nat, b as nat),
        IrInstr::Or(d, a, b) => binop_text("or"@, d as nat, a as nat, b as nat),
        IrInstr::Not(d, s) => load_text("rax"@, s as nat) + ln("  cmp rax, 0"@) + ln("  sete al"@)
            + ln("  movzx rax, al"@) + store_rax(d as nat),
        IrInstr::Neg(d, s) => load_text("rax"@, s as nat) + ln("  neg rax"@) + store_rax(d as nat),
        IrInstr::Call(r, name, args, _) => call_args_text(args@) + ln("  call "@ + name@) + store_rax(r as nat),
    }
}

/// The code for a sequence of instructions.
pub open spec fn instrs_text(s: Seq<IrInstr>) -> Seq<char>
    decreases s.len(),
{
    if s.len() == 0 { Seq::empty() } else { instrs_text(s.drop_last()) + instr_text(s.last()) }
}

/// The code for a terminator.
pub open spec fn term_text(t: Option<IrTerminator>) -> Seq<char> {
    match t {
        Some(IrTerminator::Ret(v)) => (match v { Some(x) => ln("  mov rax, "@ + slot(x as nat)), None => Seq::empty() })
            + ln("  mov rsp, rbp"@) + ln("  pop rbp"@) + ln("  ret"@),
        Some(IrTerminator::Br(l)) => ln("  jmp ."@ + l@),
        Some(IrTerminator::BrCond(v, t, f)) => ln("  mov rax, "@ + slot(v as nat)) + ln("  cmp rax, 0"@)
            + ln("  je ."@ + f@) + ln("  jmp ."@ + t@),
        None => Seq::empty(),
    }
}

/// The code for a block: its label, its instructions, its terminator.
pub open spec fn block_text(b: IrBlock) -> Seq<char> {
    ln("."@ + b.label@ + ":"@) + instrs_text(b.instrs@) + term_text(b.terminator)
}

/// The code for a sequence of blocks.
pub open spec fn blocks_text(s: Seq<IrBlock>) -> Seq<char>
    decreases s.len(),
{
    if s.len() == 0 { Seq::empty() } else { blocks_text(s.drop_last()) + block_text(s.last()) }
}

/// Stores the first six parameters from the argument registers.
pub open spec fn params_text(ps: Seq<VReg>) -> Seq<char>
    decreases ps.len(),
{
    if ps.len() == 0 {
        Seq::empty()
    } else {
        let i = ps.len() - 1;
        params_text(ps.drop_last()) + if i < 6 {
            ln("  mov "@ + slot(ps.last() as nat) + ", "@ + arg_reg(i))
        } else {
            Seq::empty()
        }
    }
}

/// The code for a function: label, frame set-up, parameters, blocks, and a
/// blank line.
pub open spec fn func_text(f: IrFunction) -> Seq<char> {
    ln(f.name@ + ":"@) + ln("  push rbp"@) + ln("  mov rbp, rsp"@)
        + ln("  sub rsp, "@ + decimal(crate::basic::regalloc::frame_size_for(f.num_vregs as nat)))
        + params_text(f.param_vregs@) + blocks_text(f.blocks@) + ln(""@)
}

/// The code for a sequence of functions.
pub open spec fn funcs_text(s: Seq<IrFunction>) -> Seq<char>
    decreases s.len(),
{
    if s.len() == 0 { Seq::empty() } else { funcs_text(s.drop_last()) + func_text(s.last()) }
}

/// The code for a module: the section header, then every function.
pub open spec fn module_text(m: IrModule) -> Seq<char> {
    ln("section .text"@) + ln("global main"@) + ln(""@) + funcs_text(m.funcs@)
}

/// Code can be written for `f`: every register its blocks name, and each
/// of its first six parameters (the ones passed in machine registers), is
/// below its register count.
pub open spec fn func_emittable(f: IrFunction) -> bool {
    &&& forall|k: int| 0 <= k < f.blocks@.len() ==> block_regs_below(#[trigger] f.blocks@[k], f.num_vregs as nat)
    &&& forall|k: int| 0 <= k < f.param_vregs@.len() && k < 6 ==> #[trigger] f.param_vregs@[k] < f.num_vregs
}

/// Code can be written for every function of the module.
pub open spec fn module_emittable(m: IrModule) -> bool {
    forall|k: int| 0 <= k < m.funcs@.len() ==> func_emittable(#[trigger] m.funcs@[k])
}

/// Whether every function's frame size can be computed without overflow.
pub open spec fn frames_fit(m: IrModule) -> bool {
    forall|k: int| 0 <= k < m.funcs@.len() ==> (#[trigger] m.funcs@[k]).num_vregs * 8 + 15 <= usize::MAX
}


proof fn lemma_assoc7(o: Seq<char>, a: Seq<char>, b: Seq<char>, c: Seq<char>, d: Seq<char>, e: Seq<char>, f: Seq<char>, g: Seq<char>)
    ensures
        o + (a + b + c + d + e + f + g) == o + a + b + c + d + e + f + g,
{
    vstd::seq_lib::lemma_concat_associative(o, a, b);
    vstd::seq_lib::lemma_concat_associative(o, a + b, c);
    vstd::seq_lib::lemma_concat_associative(o, a + b + c, d);
    vstd::seq_lib::lemma_concat_associative(o, a + b + c + d, e);
    vstd::seq_lib::lemma_concat_associative(o, a + b + c + d + e, f);
    vstd::seq_lib::lemma_concat_associative(o, a + b + c + d + e + f, g);
}

fn arg_reg_name(i: usize) -> (r: &'static str)
    requires
        i < 6,
    ensures
        r@ == arg_reg(i as int),
{
    if i == 0 { "rdi" } else if i == 1 { "rsi" } else if i == 2 { "rdx" }
    else if i == 3 { "rcx" } else if i == 4 { "r8" } else { "r9" }
}

impl Codegen {
    /// The text written so far.
    pub closed spec fn text(&self) -> Seq<char> {
        self.output@
    }

    /// The allocator holds the slots of `n` registers.
    closed spec fn slots_for(&self, n: nat) -> bool {
        &&& self.alloc.offsets@.len() == n
        &&& forall|i: int| 0 <= i < n ==> #[trigger] self.alloc.offsets@[i] == (i + 1) * 8
        &&& self.alloc.frame_size == crate::basic::regalloc::frame_size_for(n)
    }

    /// A generator with no output yet, using the slots of `alloc`.
    pub fn new(alloc: StackAllocator) -> (r: Self)
        ensures
            r.text() == Seq::<char>::empty(),
    {
        Codegen { output: String::new(), alloc }
    }

    fn emit(&mut self, s: &str)
        ensures
            final(self).output@ == old(self).output@ + ln(s@),
            final(self).alloc == old(self).alloc,
    {
        self.output.append(s);
        push_char(&mut self.output, '\n');
        assert(self.output@ =~= old(self).output@ + ln(s@));
    }

    fn slot_text(&self, v: VReg, n: Ghost<nat>) -> (r: String)
        requires
            self.slots_for(n@),
            v < n@,
        ensures
            r@ == slot(v as nat),
    {
        let mut s = owned("[rbp-");
        push_decimal(&mut s, self.alloc.offset(v) as u64);
        cat(s, "]")
    }

    /// Writes the header and the code of every function, and hands back all
    /// the text written, leaving the generator empty.
    pub fn generate(&mut self, module: &IrModule) -> (r: String)
        requires
            module_emittable(*module),
            frames_fit(*module),
        ensures
            r@ == old(self).text() + module_text(*module),
            final(self).text() == Seq::<char>::empty(),
    {
        self.emit("section .text");
        self.emit("global main");
        self.emit("");
        let ghost head = self.output@;
        let mut i: usize = 0;
        while i < module.funcs.len()
            invariant
                i <= module.funcs@.len(),
                module_emittable(*module),
                frames_fit(*module),
                self.output@ == head + funcs_text(module.funcs@.take(i as int)),
            decreases module.funcs@.len() - i,
        {
            let ghost pre = self.output@;
            self.gen_func(&module.funcs[i]);
            proof {
                let t = module.funcs@.take(i + 1);
                vstd::seq_lib::lemma_concat_associative(head, funcs_text(module.funcs@.take(i as int)), func_text(module.funcs@[i as int]));
                assert(t.drop_last() == module.funcs@.take(i as int));
                assert(t.last() == module.funcs@[i as int]);
            }
            i = i + 1;
        }
        assert(module.funcs@.take(module.funcs@.len() as int) == module.funcs@);
        proof {
            let o = old(self).output@;
            let a = ln("section .text"@);
            let b = ln("global main"@);
            let c = ln(""@);
            let d = funcs_text(module.funcs@);
            vstd::seq_lib::lemma_concat_associative(o, a, b);
            vstd::seq_lib::lemma_concat_associative(o, a + b, c);
            vstd::seq_lib::lemma_concat_associative(o, a + b + c, d);
        }
        let mut out = String::new();
        std::mem::swap(&mut out, &mut self.output);
        out
    }

    #[verifier::rlimit(30)]
    fn gen_func(&mut self, func: &IrFunction)
        requires
            func_emittable(*func),
            func.num_vregs * 8 + 15 <= usize::MAX,
        ensures
            final(self).output@ == old(self).output@ + func_text(*func),
    {
        let ghost n = func.num_vregs as nat;
        self.alloc.allocate(func.num_vregs);
        let ghost start = self.output@;
        let label = cat(func.name.clone(), ":");
        self.emit(label.as_str());
        self.emit("  push rbp");
        self.emit("  mov rbp, rsp");
        let mut sub = owned("  sub rsp, ");
        push_decimal(&mut sub, self.alloc.frame_size as u64);
        self.emit(sub.as_str());
        let ghost after_head = self.output@;
        let mut i: usize = 0;
        while i < func.param_vregs.len()
            invariant
                i <= func.param_vregs@.len(),
                func_emittable(*func),
                n == func.num_vregs,
                self.slots_for(n),
                self.output@ == after_head + params_text(func.param_vregs@.take(i as int)),
            decreases func.param_vregs@.len() - i,
        {
            let ghost pre = self.output@;
            if i < 6 {
                let line = cat(cat(cat(owned("  mov "), self.slot_text(func.param_vregs[i], Ghost(n)).as_str()), ", "),
                    arg_reg_name(i));
                self.emit(line.as_str());
            }
            proof {
                let t = func.param_vregs@.take(i + 1);
                let x = params_text(func.param_vregs@.take(i as int));
                if i < 6 {
                    vstd::seq_lib::lemma_concat_associative(after_head, x,
                        ln("  mov "@ + slot(func.param_vregs@[i as int] as nat) + ", "@ + arg_reg(i as int)));
                } else {
                    assert(x + Seq::<char>::empty() == x);
                }
                assert(t.drop_last() == func.param_vregs@.take(i as int));
                assert(t.last() == func.param_vregs@[i as int]);
            }
            i = i + 1;
        }
        assert(func.param_vregs@.take(func.param_vregs@.len() as int) == func.param_vregs@);
        let ghost after_params = self.output@;
        let mut b: usize = 0;
        while b < func.blocks.len()
            invariant
                b <= func.blocks@.len(),
                func_emittable(*func),
                n == func.num_vregs,
                self.slots_for(n),
                self.output@ == after_params + blocks_text(func.blocks@.take(b as int)),
            decreases func.blocks@.len() - b,
        {
            self.gen_block(&func.blocks[b], Ghost(n));
            proof {
                let t = func.blocks@.take(b + 1);
                vstd::seq_lib::lemma_concat_associative(after_params, blocks_text(func.blocks@.take(b as int)), block_text(func.blocks@[b as int]));
                assert(t.drop_last() == func.blocks@.take(b as int));
                assert(t.last() == func.blocks@[b as int]);
            }
            b = b + 1;
        }
        assert(func.blocks@.take(func.blocks@.len() as int) == func.blocks@);
        self.emit("");
        proof {
            lemma_assoc7(old(self).output@, ln(func.name@ + ":"@), ln("  push rbp"@), ln("  mov rbp, rsp"@),
                ln("  sub rsp, "@ + decimal(crate::basic::regalloc::frame_size_for(func.num_vregs as nat))),
                params_text(func.param_vregs@), blocks_text(func.blocks@), ln(""@));
        }
    }

    #[verifier::rlimit(40)]
    #[verifier::spinoff_prover]
    fn gen_block(&mut self, block: &IrBlock, n: Ghost<nat>)
        requires
            old(self).slots_for(n@),
            block_regs_below(*block, n@),
        ensures
            final(self).slots_for(n@),
            final(self).output@ == old(self).output@ + block_text(*block),
    {
        let label = cat(cat(owned("."), block.label.as_str()), ":");
        self.emit(label.as_str());
        let ghost after_label = self.output@;
        let mut k: usize = 0;
        while k < block.instrs.len()
            invariant
                k <= block.instrs@.len(),
                self.slots_for(n@),
                block_regs_below(*block, n@),
                self.output@ == after_label + instrs_text(block.instrs@.take(k as int)),
            decreases block.instrs@.len() - k,
        {
            self.gen_instr(&block.instrs[k], n);
            proof {
                let t = block.instrs@.take(k + 1);
                vstd::seq_lib::lemma_concat_associative(after_label, instrs_text(block.instrs@.take(k as int)), instr_text(block.instrs@[k as int]));
                assert(t.drop_last() == block.instrs@.take(k as int));
                assert(t.last() == block.instrs@[k as int]);
            }
            k = k + 1;
        }
        assert(block.instrs@.take(block.instrs@.len() as int) == block.instrs@);
        let ghost after_instrs = self.output@;
        match &block.terminator {
            Some(IrTerminator::Ret(vreg_opt)) => {
                if let Some(vreg) = vreg_opt {
                    let line = cat(owned("  mov rax, "), self.slot_text(*vreg, n).as_str());
                    self.emit(line.as_str());
                }
                self.emit("  mov rsp, rbp");
                self.emit("  pop rbp");
                self.emit("  ret");
            },
            Some(IrTerminator::Br(label)) => {
                let line = cat(owned("  jmp ."), label.as_str());
                self.emit(line.as_str());
            },
            Some(IrTerminator::BrCond(vreg, tlabel, flabel)) => {
                let line = cat(owned("  mov rax, "), self.slot_text(*vreg, n).as_str());
                self.emit(line.as_str());
                self.emit("  cmp rax, 0");
                let je = cat(owned("  je ."), flabel.as_str());
                self.emit(je.as_str());
                let jmp = cat(owned("  jmp ."), tlabel.as_str());
                self.emit(jmp.as_str());
            },
            None => {},
        }
        assert(self.output@ =~= old(self).output@ + block_text(*block));
    }

    fn store(&mut self, d: VReg, n: Ghost<nat>)
        requires
            old(self).slots_for(n@),
            d < n@,
        ensures
            final(self).slots_for(n@),
            final(self).output@ == old(self).output@ + store_rax(d as nat),
    {
        let line = cat(cat(owned("  mov "), self.slot_text(d, n).as_str()), ", rax");
        self.emit(line.as_str());
    }

    fn load(&mut self, reg: &str, v: VReg, n: Ghost<nat>)
        requires
            old(self).slots_for(n@),
            v < n@,
        ensures
            final(self).slots_for(n@),
            final(self).output@ == old(self).output@ + load_text(reg@, v as nat),
    {
        let line = cat(cat(cat(owned("  mov "), reg), ", "), self.slot_text(v, n).as_str());
        self.emit(line.as_str());
    }

    fn gen_instr(&mut self, instr: &IrInstr, n: Ghost<nat>)
        requires
            old(self).slots_for(n@),
            instr_regs_below(*instr, n@),
        ensures
            final(self).slots_for(n@),
            final(self).output@ == old(self).output@ + instr_text(*instr),
    {
        match instr {
            IrInstr::Const(vreg, val, _) => {
                let mut line = owned("  mov rax, ");
                push_signed_decimal(&mut line, *val);
                self.emit(line.as_str());
                self.store(*vreg, n);
            },
            IrInstr::Mov(dst, src) => {
                self.load("rax", *src, n);
                self.store(*dst, n);
            },
            IrInstr::Add(dst, a, b) => self.binop("add", *dst, *a, *b, n),
            IrInstr::Sub(dst, a, b) => self.binop("sub", *dst, *a, *b, n),
            IrInstr::Mul(dst, a, b) => self.binop("imul", *dst, *a, *b, n),
            IrInstr::Div(dst, a, b) => {
                self.load("rax", *a, n);
                self.emit("  cdq");
                self.load("rcx", *b, n);
                self.emit("  idiv rcx");
                self.store(*dst, n);
            },
            IrInstr::Eq(dst, a, b) => self.setcc("sete", *dst, *a, *b, n),
            IrInstr::Lt(dst, a, b) => self.setcc("setl", *dst, *a, *b, n),
            IrInstr::And(dst, a, b) => self.binop("and", *dst, *a, *b, n),
            IrInstr::Or(dst, a, b) => self.binop("or", *dst, *a, *b, n),
            IrInstr::Not(dst, src) => {
                self.load("rax", *src, n);
                self.emit("  cmp rax, 0");
                self.emit("  sete al");
                self.emit("  movzx rax, al");
                self.store(*dst, n);
            },
            IrInstr::Neg(dst, src) => {
                self.load("rax", *src, n);
                self.emit("  neg rax");
                self.store(*dst, n);
            },
            IrInstr::Call(result, name, args, _) => {
                let ghost start = self.output@;
                let mut i: usize = 0;
                while i < args.len()
                    invariant
                        i <= args@.len(),
                        self.slots_for(n@),
                        instr_regs_below(*instr, n@),
                        *instr is Call,
                        instr->Call_2 == *args,
                        self.output@ == start + call_args_text(args@.take(i as int)),
                    decreases args@.len() - i,
                {
                    if i < 6 {
                        self.load(arg_reg_name(i), args[i], n);
                    }
                    proof {
                        let t = args@.take(i + 1);
                        let x = call_args_text(args@.take(i as int));
                        if i < 6 {
                            vstd::seq_lib::lemma_concat_associative(start, x, load_text(arg_reg(i as int), args@[i as int] as nat));
                        } else {
                            assert(x + Seq::<char>::empty() == x);
                        }
                        assert(t.drop_last() == args@.take(i as int));
                        assert(t.last() == args@[i as int]);
                    }
                    i = i + 1;
                }
                assert(args@.take(args@.len() as int) == args@);
                let line = cat(owned("  call "), name.as_str());
                self.emit(line.as_str());
                self.store(*result, n);
            },
        }
        assert(self.output@ =~= old(self).output@ + instr_text(*instr));
    }

    fn binop(&mut self, op: &str, dst: VReg, a: VReg, b: VReg, n: Ghost<nat>)
        requires
            old(self).slots_for(n@),
            dst < n@,
            a < n@,
            b < n@,
        ensures
            final(self).slots_for(n@),
            final(self).output@ == old(self).output@ + binop_text(op@, dst as nat, a as nat, b as nat),
    {
        self.load("rax", a, n);
        self.load("rcx", b, n);
        let line = cat(cat(owned("  "), op), " rax, rcx");
        self.emit(line.as_str());
        self.store(dst, n);
        assert(self.output@ =~= old(self).output@ + binop_text(op@, dst as nat, a as nat, b as nat));
    }

    fn setcc(&mut self, cc: &str, dst: VReg, a: VReg, b: VReg, n: Ghost<nat>)
        requires
            old(self).slots_for(n@),
            dst < n@,
            a < n@,
            b < n@,
        ensures
            final(self).slots_for(n@),
            final(self).output@ == old(self).output@ + setcc_text(cc@, dst as nat, a as nat, b as nat),
    {
        self.load("rax", a, n);
        self.load("rcx", b, n);
        self.emit("  cmp rax, rcx");
        let line = cat(cat(owned("  "), cc), " al");
        self.emit(line.as_str());
        self.emit("  movzx rax, al");
        self.store(dst, n);
        assert(self.output@ =~= old(self).output@ + setcc_text(cc@, dst as nat, a as nat, b as nat));
    }
}

} // verus!
