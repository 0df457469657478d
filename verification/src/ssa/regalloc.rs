use vstd::prelude::*;
use crate::ssa::ir::{IrFunction, IrTerminator, VReg, BlockView, TermView, spec_dest, spec_uses};
use std::collections::HashMap;

verus! {

broadcast use vstd::std_specs::hash::group_hash_axioms;

/// The machine registers.
#[derive(Clone, Copy, Debug, PartialEq, Eq, Structural)]
pub enum PhysReg {
    Rax,
    Rcx,
    Rdx,
    Rbx,
    Rsi,
    Rdi,
    R8,
    R9,
    R10,
    R11,
    R12,
    R13,
    R14,
    R15,
}

/// The registers the allocator hands out, in the order it hands them out.
pub open spec fn spec_all_regs() -> Seq<PhysReg> {
    seq![
        PhysReg::Rax, PhysReg::Rcx, PhysReg::Rdx, PhysReg::Rbx, PhysReg::Rsi, PhysReg::Rdi, PhysReg::R8,
        PhysReg::R9, PhysReg::R10, PhysReg::R11, PhysReg::R12, PhysReg::R13, PhysReg::R14, PhysReg::R15,
    ]
}

/// The registers the allocator hands out, in order.
pub fn all_regs() -> (r: Vec<PhysReg>)
    ensures
        r@ == spec_all_regs(),
{
    let r = vec![
        PhysReg::Rax, PhysReg::Rcx, PhysReg::Rdx, PhysReg::Rbx, PhysReg::Rsi, PhysReg::Rdi, PhysReg::R8,
        PhysReg::R9, PhysReg::R10, PhysReg::R11, PhysReg::R12, PhysReg::R13, PhysReg::R14, PhysReg::R15,
    ];
    assert(r@ =~= spec_all_regs());
    r
}

/// The registers a called function must preserve.
pub fn callee_saved() -> (r: Vec<PhysReg>)
    ensures
        r@ == seq![PhysReg::Rbx, PhysReg::R12, PhysReg::R13, PhysReg::R14, PhysReg::R15],
{
    let r = vec![PhysReg::Rbx, PhysReg::R12, PhysReg::R13, PhysReg::R14, PhysReg::R15];
    assert(r@ =~= seq![PhysReg::Rbx, PhysReg::R12, PhysReg::R13, PhysReg::R14, PhysReg::R15]);
    r
}

/// The registers that carry the first arguments of a call, in order.
pub fn arg_regs() -> (r: Vec<PhysReg>)
    ensures
        r@ == seq![PhysReg::Rdi, PhysReg::Rsi, PhysReg::Rdx, PhysReg::Rcx, PhysReg::R8, PhysReg::R9],
{
    let r = vec![PhysReg::Rdi, PhysReg::Rsi, PhysReg::Rdx, PhysReg::Rcx, PhysReg::R8, PhysReg::R9];
    assert(r@ =~= seq![PhysReg::Rdi, PhysReg::Rsi, PhysReg::Rdx, PhysReg::Rcx, PhysReg::R8, PhysReg::R9]);
    r
}

/// Where a register is live: from its first definition to its last use,
/// counted in instructions (each block's terminator counts as one).
#[derive(Clone, Copy, Debug, PartialEq, Eq, Structural)]
pub struct LiveInterval {
    pub vreg: VReg,
    pub start: usize,
    pub end: usize,
}

/// Where each register lives: in a machine register or a stack slot.
#[derive(Debug)]
pub struct Allocation {
    pub reg_map: HashMap<VReg, PhysReg>,
    pub spill_slots: HashMap<VReg, usize>,
    pub stack_size: usize,
}

/// The registers a function writes or reads.
pub open spec fn live_regs(func: IrFunction) -> Set<VReg> {
    Set::new(|v: VReg| mentioned(positions(func@.blocks), v))
}

/// The allocator's state is consistent: each active interval holds its
/// register in `rm` and only active intervals hold registers, no register
/// lives both in a machine register and on the stack, and the `next` stack
/// slots handed out so far are distinct.
pub open spec fn state_ok(active: Seq<(usize, VReg, PhysReg)>, rm: Map<VReg, PhysReg>, sp: Map<VReg, usize>, next: nat) -> bool {
    &&& forall|q: int| 0 <= q < active.len() ==> rm.contains_key((#[trigger] active[q]).1) && rm[active[q].1] == active[q].2
    &&& forall|v: VReg| #[trigger] rm.contains_key(v) ==> exists|q: int| 0 <= q < active.len() && active[q].1 == v
    &&& forall|a: int, b: int| 0 <= a < b < active.len() ==> active[a].1 != active[b].1
    &&& forall|v: VReg| !(rm.contains_key(v) && #[trigger] sp.contains_key(v))
    &&& forall|v: VReg| #[trigger] sp.contains_key(v) ==> sp[v] < next
    &&& forall|v: VReg, w: VReg| #[trigger] sp.contains_key(v) && #[trigger] sp.contains_key(w) && v != w ==> sp[v] != sp[w]
    &&& next == sp.dom().len()
    &&& sp.dom().finite()
}

proof fn lemma_expire_ok(a0: Seq<(usize, VReg, PhysReg)>, m0: Map<VReg, PhysReg>, a1: Seq<(usize, VReg, PhysReg)>,
    m1: Map<VReg, PhysReg>, sp: Map<VReg, usize>, next: nat, start: usize)
    requires
        state_ok(a0, m0, sp, next),
        forall|a: int, b: int| 0 <= a < b < a1.len() ==> a1[a].1 != a1[b].1,
        forall|i: int| 0 <= i < a1.len() ==> a0.contains(#[trigger] a1[i]) && a1[i].0 > start,
        forall|i: int| 0 <= i < a0.len() && (#[trigger] a0[i]).0 > start ==> a1.contains(a0[i]),
        forall|v: VReg| #[trigger] m1.contains_key(v) == (m0.contains_key(v)
            && !exists|i: int| 0 <= i < a0.len() && a0[i].1 == v && a0[i].0 <= start),
        forall|v: VReg| m1.contains_key(v) ==> #[trigger] m1[v] == m0[v],
    ensures
        state_ok(a1, m1, sp, next),
        forall|v: VReg| m1.contains_key(v) ==> m0.contains_key(v),
{
    assert forall|q: int| 0 <= q < a1.len() implies m1.contains_key((#[trigger] a1[q]).1) && m1[a1[q].1] == a1[q].2 by {
        let w = choose|w: int| 0 <= w < a0.len() && a0[w] == a1[q];
        assert(m0.contains_key(a0[w].1));
        if exists|z: int| 0 <= z < a0.len() && a0[z].1 == a1[q].1 && a0[z].0 <= start {
            let z = choose|z: int| 0 <= z < a0.len() && a0[z].1 == a1[q].1 && a0[z].0 <= start;
            if z != w {
                if z < w {
                    assert(a0[z].1 != a0[w].1);
                } else {
                    assert(a0[w].1 != a0[z].1);
                }
            }
        }
    }
    assert forall|v: VReg| #[trigger] m1.contains_key(v) implies exists|q: int| 0 <= q < a1.len() && a1[q].1 == v by {
        let w = choose|w: int| 0 <= w < a0.len() && a0[w].1 == v;
        assert(a0[w].0 > start);
        assert(a1.contains(a0[w]));
        let q = choose|q: int| 0 <= q < a1.len() && a1[q] == a0[w];
    }
}

/// The allocator's state: the active intervals (end, register, machine
/// register) in order, the machine-register map, the stack-slot map and
/// the number of slots handed out.
pub type ScanState = (Seq<(usize, VReg, PhysReg)>, Map<VReg, PhysReg>, Map<VReg, usize>, nat);

/// The active intervals that end after `start`, in order.
pub open spec fn ending_after(a: Seq<(usize, VReg, PhysReg)>, start: usize) -> Seq<(usize, VReg, PhysReg)>
    decreases a.len(),
{
    if a.len() == 0 {
        a
    } else if a.last().0 > start {
        ending_after(a.drop_last(), start).push(a.last())
    } else {
        ending_after(a.drop_last(), start)
    }
}

/// The active intervals other than the one of `c`, in order.
pub open spec fn without_reg(a: Seq<(usize, VReg, PhysReg)>, c: VReg) -> Seq<(usize, VReg, PhysReg)>
    decreases a.len(),
{
    if a.len() == 0 {
        a
    } else if a.last().1 != c {
        without_reg(a.drop_last(), c).push(a.last())
    } else {
        without_reg(a.drop_last(), c)
    }
}

/// The registers of the active intervals that end at or before `start`.
pub open spec fn expired(a: Seq<(usize, VReg, PhysReg)>, start: usize) -> Set<VReg> {
    Set::new(|v: VReg| exists|i: int| 0 <= i < a.len() && a[i].1 == v && a[i].0 <= start)
}

/// The index of the active interval that ends last (the later one on a tie).
pub open spec fn last_max(a: Seq<(usize, VReg, PhysReg)>) -> int
    decreases a.len(),
{
    if a.len() <= 1 {
        0
    } else {
        let b = last_max(a.drop_last());
        if a.last().0 >= a[b].0 { a.len() - 1 } else { b }
    }
}

/// The end of the interval of `c` among `all`.
pub open spec fn end_in(all: Seq<LiveInterval>, c: VReg) -> usize {
    all[choose|k: int| 0 <= k < all.len() && all[k].vreg == c].end
}

/// Frees the registers of the intervals that end at or before `start`.
pub open spec fn scan_expire(st: ScanState, start: usize) -> ScanState {
    (ending_after(st.0, start), st.1.remove_keys(expired(st.0, start)), st.2, st.3)
}

/// Places `iv`: in the next machine register while fewer than all of them
/// are taken; else the active interval ending last is spilled and gives
/// its register to `iv` if it ends after `iv`, and otherwise `iv` is
/// spilled.
pub open spec fn scan_place(st: ScanState, iv: LiveInterval, all: Seq<LiveInterval>) -> ScanState {
    let (a, rm, sp, n) = st;
    if a.len() < spec_all_regs().len() {
        let reg = spec_all_regs()[a.len() as int];
        (a.push((iv.end, iv.vreg, reg)), rm.insert(iv.vreg, reg), sp, n)
    } else {
        let c = a[last_max(a)].1;
        if end_in(all, c) > iv.end {
            let reg = rm[c];
            (without_reg(a, c).push((iv.end, iv.vreg, reg)), rm.remove(c).insert(iv.vreg, reg), sp.insert(c, n as usize), n + 1)
        } else {
            (a, rm, sp.insert(iv.vreg, n as usize), n + 1)
        }
    }
}

/// The state after taking the intervals `s` in turn.
pub open spec fn scan_prefix(s: Seq<LiveInterval>, all: Seq<LiveInterval>) -> ScanState
    decreases s.len(),
{
    if s.len() == 0 {
        (Seq::empty(), Map::empty(), Map::empty(), 0)
    } else {
        let iv = s.last();
        scan_place(scan_expire(scan_prefix(s.drop_last(), all), iv.start), iv, all)
    }
}

/// Gives a stack slot, in the order of `s`, to each register without a home.
pub open spec fn fill_slots(st: ScanState, s: Seq<LiveInterval>) -> ScanState
    decreases s.len(),
{
    if s.len() == 0 {
        st
    } else {
        let p = fill_slots(st, s.drop_last());
        let v = s.last().vreg;
        if p.1.contains_key(v) || p.2.contains_key(v) {
            p
        } else {
            (p.0, p.1, p.2.insert(v, p.3 as usize), p.3 + 1)
        }
    }
}

/// Linear scan over `by_start`, then stack slots in the order of `order`
/// for what has no home.
pub open spec fn linear_scan(by_start: Seq<LiveInterval>, order: Seq<LiveInterval>) -> ScanState {
    fill_slots(scan_prefix(by_start, order), order)
}

/// `order` holds the live interval of every register the positions `s`
/// mention, each once.
pub open spec fn live_order(s: Seq<(Option<VReg>, Seq<VReg>)>, order: Seq<LiveInterval>) -> bool {
    &&& forall|i: int| 0 <= i < order.len() ==> #[trigger] order[i] == interval_of(s, order[i].vreg) && mentioned(s, order[i].vreg)
    &&& forall|i: int, j: int| 0 <= i < j < order.len() ==> order[i].vreg != order[j].vreg
    &&& forall|v: VReg| mentioned(s, v) ==> exists|i: int| 0 <= i < order.len() && (#[trigger] order[i]).vreg == v
}

/// The intervals come by start.
pub open spec fn by_start(s: Seq<LiveInterval>) -> bool {
    forall|i: int, j: int| 0 <= i < j < s.len() ==> s[i].start <= s[j].start
}

/// Linear-scan register allocation.
pub struct RegAllocator;

/// The registers a terminator reads.
pub open spec fn term_reads(t: TermView) -> Seq<VReg> {
    match t {
        TermView::Ret(Some(v)) => seq![v],
        TermView::BrCond(v, _, _) => seq![v],
        _ => seq![],
    }
}

/// The instruction positions of a list of blocks: each instruction, then
/// the block's terminator, as what it writes and what it reads.
pub open spec fn positions(bs: Seq<BlockView>) -> Seq<(Option<VReg>, Seq<VReg>)>
    decreases bs.len(),
{
    if bs.len() == 0 {
        seq![]
    } else {
        let b = bs.last();
        positions(bs.drop_last())
            + b.instrs.map_values(|i: crate::ssa::ir::InstrView| (spec_dest(i), spec_uses(i)))
            + seq![(None::<VReg>, term_reads(b.term))]
    }
}

/// The first position that writes `v`.
pub open spec fn first_def(s: Seq<(Option<VReg>, Seq<VReg>)>, v: VReg) -> Option<nat>
    decreases s.len(),
{
    if s.len() == 0 {
        None
    } else {
        match first_def(s.drop_last(), v) {
            Some(d) => Some(d),
            None => if s.last().0 == Some(v) { Some((s.len() - 1) as nat) } else { None },
        }
    }
}

/// The last position that reads `v`.
pub open spec fn last_use(s: Seq<(Option<VReg>, Seq<VReg>)>, v: VReg) -> Option<nat>
    decreases s.len(),
{
    if s.len() == 0 {
        None
    } else if s.last().1.contains(v) {
        Some((s.len() - 1) as nat)
    } else {
        last_use(s.drop_last(), v)
    }
}

/// The live interval of `v` among the positions `s`: from its first
/// definition (or 0 if it is never defined) to its last use (or its
/// definition if it is never used).
pub open spec fn interval_of(s: Seq<(Option<VReg>, Seq<VReg>)>, v: VReg) -> LiveInterval {
    match first_def(s, v) {
        Some(d) => LiveInterval {
            vreg: v,
            start: d as usize,
            end: match last_use(s, v) { Some(u) => u as usize, None => d as usize },
        },
        None => LiveInterval { vreg: v, start: 0, end: match last_use(s, v) { Some(u) => u as usize, None => 0 } },
    }
}

/// Whether `v` is written or read at some position.
pub open spec fn mentioned(s: Seq<(Option<VReg>, Seq<VReg>)>, v: VReg) -> bool {
    first_def(s, v) is Some || last_use(s, v) is Some
}

/// The positions as values.
pub open spec fn pos_view(v: Seq<(Option<VReg>, Vec<VReg>)>) -> Seq<(Option<VReg>, Seq<VReg>)> {
    v.map_values(|e: (Option<VReg>, Vec<VReg>)| (e.0, e.1@))
}

/// The instruction positions of a function.
fn flatten(func: &IrFunction) -> (r: Vec<(Option<VReg>, Vec<VReg>)>)
    ensures
        pos_view(r@) == positions(func@.blocks),
{
    let ghost bs = func@.blocks;
    let mut flat: Vec<(Option<VReg>, Vec<VReg>)> = Vec::new();
    let mut j: usize = 0;
    assert(bs.take(0) == Seq::<BlockView>::empty());
    while j < func.blocks.len()
        invariant
            bs == func@.blocks,
            j <= bs.len(),
            pos_view(flat@) == positions(bs.take(j as int)),
        decreases bs.len() - j,
    {
        let block = &func.blocks[j];
        let ghost b = bs[j as int];
        assert(block@ == b);
        let ghost base = pos_view(flat@);
        let mut k: usize = 0;
        while k < block.instrs.len()
            invariant
                b == block@,
                k <= b.instrs.len(),
                pos_view(flat@) == base + b.instrs.take(k as int).map_values(|i: crate::ssa::ir::InstrView| (spec_dest(i), spec_uses(i))),
            decreases b.instrs.len() - k,
        {
            let instr = &block.instrs[k];
            assert(instr@ == b.instrs[k as int]);
            let ghost before = flat@;
            let e = (instr.dest(), instr.uses());
            flat.push(e);
            assert(pos_view(flat@) == pos_view(before).push((e.0, e.1@)));
            assert(b.instrs.take(k + 1) == b.instrs.take(k as int).push(b.instrs[k as int]));
            k = k + 1;
        }
        assert(b.instrs.take(b.instrs.len() as int) == b.instrs);
        let reads: Vec<VReg> = match &block.terminator {
            IrTerminator::Ret(Some(v)) => vec![*v],
            IrTerminator::BrCond(v, _, _) => vec![*v],
            _ => Vec::new(),
        };
        assert(reads@ == term_reads(b.term));
        let ghost before = flat@;
        flat.push((None, reads));
        assert(pos_view(flat@) == pos_view(before).push((None::<VReg>, reads@)));
        assert(bs.take(j + 1).drop_last() == bs.take(j as int));
        assert(bs.take(j + 1).last() == b);
        j = j + 1;
    }
    assert(bs.take(bs.len() as int) == bs);
    flat
}

/// Whether `v` is among `s`.
fn contains_reg(s: &Vec<VReg>, v: VReg) -> (r: bool)
    ensures
        r == s@.contains(v),
{
    let mut i: usize = 0;
    while i < s.len()
        invariant
            i <= s@.len(),
            forall|q: int| 0 <= q < i ==> s@[q] != v,
        decreases s@.len() - i,
    {
        if s[i] == v {
            return true;
        }
        i = i + 1;
    }
    false
}

/// Some entry of `p` is `t`.
spec fn picks(p: Seq<int>, t: int) -> bool {
    exists|i: int| 0 <= i < p.len() && #[trigger] p[i] == t
}

/// The intervals ordered by start; intervals with the same start keep
/// their order.
fn sort_by_start(v: &Vec<LiveInterval>) -> (r: (Vec<LiveInterval>, Ghost<Seq<int>>))
    ensures
        r.0@.len() == v@.len(),
        r.1@.len() == r.0@.len(),
        forall|i: int| 0 <= i < r.0@.len() ==> 0 <= #[trigger] r.1@[i] < v@.len() && r.0@[i] == v@[r.1@[i]],
        forall|a: int, b: int| 0 <= a < b < r.0@.len() ==> r.1@[a] != r.1@[b],
        forall|i: int, j: int| 0 <= i < j < r.0@.len() ==> r.0@[i].start <= r.0@[j].start,
        forall|t: int| 0 <= t < v@.len() ==> #[trigger] picks(r.1@, t),
{
    let mut out: Vec<LiveInterval> = Vec::new();
    let ghost mut perm: Seq<int> = Seq::empty();
    let mut k: usize = 0;
    while k < v.len()
        invariant
            k <= v@.len(),
            out@.len() == k,
            perm.len() == k,
            forall|i: int| 0 <= i < k ==> 0 <= #[trigger] perm[i] < k && out@[i] == v@[perm[i]],
            forall|a: int, b: int| 0 <= a < b < k ==> perm[a] != perm[b],
            forall|i: int, j: int| 0 <= i < j < out@.len() ==> out@[i].start <= out@[j].start,
            forall|t: int| 0 <= t < k ==> #[trigger] picks(perm, t),
        decreases v@.len() - k,
    {
        let x = v[k];
        let mut pos = out.len();
        while pos > 0 && out[pos - 1].start > x.start
            invariant
                pos <= out@.len(),
                forall|q: int| pos <= q < out@.len() ==> out@[q].start > x.start,
            decreases pos,
        {
            pos = pos - 1;
        }
        let ghost before = out@;
        out.insert(pos, x);
        proof {
            assert(out@ == before.insert(pos as int, x));
            assert forall|i: int, j: int| 0 <= i < j < out@.len() implies out@[i].start <= out@[j].start by {
                if j < pos {
                    assert(out@[i] == before[i] && out@[j] == before[j]);
                } else if j == pos {
                    assert(out@[i] == before[i]);
                    if pos > 0 {
                        assert(before[pos - 1].start <= x.start);
                        if i < pos - 1 {
                            assert(before[i].start <= before[pos - 1].start);
                        }
                    }
                } else if i == pos {
                    assert(out@[j] == before[j - 1]);
                } else if i < pos {
                    assert(out@[i] == before[i] && out@[j] == before[j - 1]);
                } else {
                    assert(out@[i] == before[i - 1] && out@[j] == before[j - 1]);
                }
            }
            let p0 = perm;
            perm = p0.insert(pos as int, k as int);
            assert forall|i: int| 0 <= i < k + 1 implies 0 <= #[trigger] perm[i] < k + 1 && out@[i] == v@[perm[i]] by {
                if i < pos {
                    assert(perm[i] == p0[i] && out@[i] == before[i]);
                } else if i > pos {
                    assert(perm[i] == p0[i - 1] && out@[i] == before[i - 1]);
                }
            }
            assert forall|t: int| 0 <= t < k + 1 implies #[trigger] picks(perm, t) by {
                if t == k {
                    assert(perm[pos as int] == t);
                } else {
                    assert(picks(p0, t));
                    let i = choose|i: int| 0 <= i < p0.len() && #[trigger] p0[i] == t;
                    if i < pos {
                        assert(perm[i] == t);
                    } else {
                        assert(perm[i + 1] == t);
                    }
                }
            }
            assert forall|a: int, b: int| 0 <= a < b < k + 1 implies perm[a] != perm[b] by {
                if a < pos && b < pos {
                    assert(perm[a] == p0[a] && perm[b] == p0[b]);
                } else if a < pos && b > pos {
                    assert(perm[a] == p0[a] && perm[b] == p0[b - 1]);
                } else if a > pos {
                    assert(perm[a] == p0[a - 1] && perm[b] == p0[b - 1]);
                } else if a == pos {
                    assert(perm[b] == p0[b - 1]);
                } else {
                    assert(perm[a] == p0[a]);
                }
            }
        }
        k = k + 1;
    }
    (out, Ghost(perm))
}

impl RegAllocator {
    /// An allocator; it keeps no state.
    pub fn new() -> (r: Self) {
        RegAllocator
    }

    /// Hands out the next spill slot.
    fn get_spill_slot(&self, counter: &mut usize) -> (r: usize)
        requires
            *old(counter) < usize::MAX,
        ensures
            r == *old(counter),
            *final(counter) == *old(counter) + 1,
    {
        let slot = *counter;
        *counter = *counter + 1;
        slot
    }

    /// Drops the active intervals that end at or before `current_start`,
    /// freeing their registers.
    fn expire_intervals(&self, current_start: usize, active: &mut Vec<(usize, VReg, PhysReg)>,
        reg_map: &mut HashMap<VReg, PhysReg>)
        requires
            forall|a: int, b: int| 0 <= a < b < old(active)@.len() ==> old(active)@[a].1 != old(active)@[b].1,
        ensures
            forall|a: int, b: int| 0 <= a < b < final(active)@.len() ==> final(active)@[a].1 != final(active)@[b].1,
            forall|i: int| 0 <= i < final(active)@.len() ==> old(active)@.contains(#[trigger] final(active)@[i])
                && final(active)@[i].0 > current_start,
            forall|i: int| 0 <= i < old(active)@.len() && (#[trigger] old(active)@[i]).0 > current_start
                ==> final(active)@.contains(old(active)@[i]),
            forall|v: VReg| #[trigger] final(reg_map)@.contains_key(v) == (old(reg_map)@.contains_key(v)
                && !exists|i: int| 0 <= i < old(active)@.len() && old(active)@[i].1 == v && old(active)@[i].0 <= current_start),
            forall|v: VReg| final(reg_map)@.contains_key(v) ==> #[trigger] final(reg_map)@[v] == old(reg_map)@[v],
            final(active)@ == ending_after(old(active)@, current_start),
            final(reg_map)@ == old(reg_map)@.remove_keys(expired(old(active)@, current_start)),
    {
        let ghost a0 = active@;
        let ghost m0 = reg_map@;
        let mut kept: Vec<(usize, VReg, PhysReg)> = Vec::new();
        let ghost mut idx: Seq<int> = Seq::empty();
        let mut i: usize = 0;
        while i < active.len()
            invariant
                active@ == a0,
                i <= a0.len(),
                forall|a: int, b: int| 0 <= a < b < a0.len() ==> a0[a].1 != a0[b].1,
                idx.len() == kept@.len(),
                forall|q: int| 0 <= q < kept@.len() ==> 0 <= #[trigger] idx[q] < i && kept@[q] == a0[idx[q]],
                forall|a: int, b: int| 0 <= a < b < kept@.len() ==> idx[a] < idx[b],
                forall|q: int| 0 <= q < kept@.len() ==> a0.contains(#[trigger] kept@[q]) && kept@[q].0 > current_start,
                forall|q: int| 0 <= q < i && (#[trigger] a0[q]).0 > current_start ==> kept@.contains(a0[q]),
                forall|v: VReg| #[trigger] reg_map@.contains_key(v) == (m0.contains_key(v)
                    && !exists|q: int| 0 <= q < i && a0[q].1 == v && a0[q].0 <= current_start),
                forall|v: VReg| reg_map@.contains_key(v) ==> #[trigger] reg_map@[v] == m0[v],
                kept@ == ending_after(a0.take(i as int), current_start),
            decreases a0.len() - i,
        {
            let e = active[i];
            proof {
                assert(a0.take(i + 1).drop_last() =~= a0.take(i as int));
                assert(a0.take(i + 1).last() == e);
            }
            if e.0 <= current_start {
                reg_map.remove(&e.1);
            } else {
                let ghost kb = kept@;
                kept.push(e);
                proof {
                    idx = idx.push(i as int);
                    assert forall|q: int| 0 <= q < i + 1 && (#[trigger] a0[q]).0 > current_start implies kept@.contains(a0[q]) by {
                        if q < i {
                            let w = choose|w: int| 0 <= w < kb.len() && kb[w] == a0[q];
                            assert(kept@[w] == kb[w]);
                        } else {
                            assert(kept@[kb.len() as int] == a0[q]);
                        }
                    }
                }
            }
            proof {
                assert forall|v: VReg| #[trigger] reg_map@.contains_key(v) == (m0.contains_key(v)
                    && !exists|q: int| 0 <= q < i + 1 && a0[q].1 == v && a0[q].0 <= current_start) by {
                    if exists|q: int| 0 <= q < i + 1 && a0[q].1 == v && a0[q].0 <= current_start {
                        let q = choose|q: int| 0 <= q < i + 1 && a0[q].1 == v && a0[q].0 <= current_start;
                        if q < i {
                        }
                    }
                }
            }
            i = i + 1;
        }
        proof {
            assert forall|a: int, b: int| 0 <= a < b < kept@.len() implies kept@[a].1 != kept@[b].1 by {
                assert(kept@[a] == a0[idx[a]] && kept@[b] == a0[idx[b]]);
            }
            assert(a0.take(a0.len() as int) =~= a0);
            assert(reg_map@ =~= m0.remove_keys(expired(a0, current_start)));
        }
        *active = kept;
    }

    /// The live interval of every register the function writes or reads,
    /// each once.
    pub fn compute_live_intervals(&self, func: &IrFunction) -> (r: Vec<LiveInterval>)
        ensures
            ({
                let s = positions(func@.blocks);
                &&& forall|i: int| 0 <= i < r@.len() ==> #[trigger] r@[i] == interval_of(s, r@[i].vreg) && mentioned(s, r@[i].vreg)
                &&& forall|i: int, j: int| 0 <= i < j < r@.len() ==> r@[i].vreg != r@[j].vreg
                &&& forall|v: VReg| mentioned(s, v) ==> exists|i: int| 0 <= i < r@.len() && (#[trigger] r@[i]).vreg == v
            }),
    {
        let flat = flatten(func);
        let ghost s = pos_view(flat@);
        let mut defs: HashMap<VReg, usize> = HashMap::new();
        let mut last: HashMap<VReg, usize> = HashMap::new();
        let mut def_order: Vec<VReg> = Vec::new();
        let mut use_order: Vec<VReg> = Vec::new();
        let mut p: usize = 0;
        assert(s.take(0) == Seq::<(Option<VReg>, Seq<VReg>)>::empty());
        while p < flat.len()
            invariant
                s == pos_view(flat@),
                p <= s.len(),
                forall|v: VReg| #[trigger] defs@.contains_key(v) == first_def(s.take(p as int), v) is Some,
                forall|v: VReg| defs@.contains_key(v) ==> first_def(s.take(p as int), v) == Some(#[trigger] defs@[v] as nat),
                forall|v: VReg| #[trigger] last@.contains_key(v) == last_use(s.take(p as int), v) is Some,
                forall|v: VReg| last@.contains_key(v) ==> last_use(s.take(p as int), v) == Some(#[trigger] last@[v] as nat),
                forall|v: VReg| #[trigger] def_order@.contains(v) == defs@.contains_key(v),
                forall|v: VReg| #[trigger] use_order@.contains(v) == last@.contains_key(v),
                forall|a: int, b: int| 0 <= a < b < def_order@.len() ==> def_order@[a] != def_order@[b],
                forall|a: int, b: int| 0 <= a < b < use_order@.len() ==> use_order@[a] != use_order@[b],
            decreases s.len() - p,
        {
            let ghost t = s.take(p as int);
            let ghost last0 = last@;
            let ghost uses = s[p as int].1;
            assert(flat@[p as int].1@ == uses);
            let mut q: usize = 0;
            while q < flat[p].1.len()
                invariant
                    s == pos_view(flat@),
                    p < s.len(),
                    t == s.take(p as int),
                    uses == flat@[p as int].1@,
                    q <= uses.len(),
                    forall|v: VReg| #[trigger] last@.contains_key(v) == (uses.take(q as int).contains(v) || last_use(t, v) is Some),
                    forall|v: VReg| last@.contains_key(v) ==> #[trigger] last@[v] as nat == (if uses.take(q as int).contains(v) {
                        p as nat } else { last_use(t, v)->0 }),
                    forall|v: VReg| #[trigger] use_order@.contains(v) == last@.contains_key(v),
                    forall|a: int, b: int| 0 <= a < b < use_order@.len() ==> use_order@[a] != use_order@[b],
                decreases uses.len() - q,
            {
                let u = flat[p].1[q];
                assert(u == uses[q as int]);
                if !last.contains_key(&u) {
                    let ghost uo = use_order@;
                    use_order.push(u);
                    assert forall|a: int, b: int| 0 <= a < b < use_order@.len() implies use_order@[a] != use_order@[b] by {
                        if b == uo.len() {
                            assert(uo.contains(uo[a]));
                        } else {
                            assert(use_order@[a] == uo[a] && use_order@[b] == uo[b]);
                        }
                    }
                    assert forall|v: VReg| #[trigger] use_order@.contains(v) == (uo.contains(v) || v == u) by {
                        if use_order@.contains(v) {
                            let k = choose|k: int| 0 <= k < use_order@.len() && #[trigger] use_order@[k] == v;
                            if k < uo.len() {
                                assert(uo[k] == v);
                            }
                        }
                        if uo.contains(v) {
                            let k = choose|k: int| 0 <= k < uo.len() && #[trigger] uo[k] == v;
                            assert(use_order@[k] == v);
                        }
                        if v == u {
                            assert(use_order@[uo.len() as int] == v);
                        }
                    }
                }
                last.insert(u, p);
                assert(uses.take(q + 1) == uses.take(q as int).push(u));
                assert forall|v: VReg| uses.take(q + 1).contains(v) == (uses.take(q as int).contains(v) || v == u) by {
                    if uses.take(q + 1).contains(v) {
                        let k = choose|k: int| 0 <= k < q + 1 && #[trigger] uses.take(q + 1)[k] == v;
                        if k < q {
                            assert(uses.take(q as int)[k] == v);
                        }
                    }
                    if uses.take(q as int).contains(v) {
                        let k = choose|k: int| 0 <= k < q && #[trigger] uses.take(q as int)[k] == v;
                        assert(uses.take(q + 1)[k] == v);
                    }
                    if v == u {
                        assert(uses.take(q + 1)[q as int] == v);
                    }
                }
                q = q + 1;
            }
            assert(uses.take(uses.len() as int) == uses);
            assert(s.take(p + 1).drop_last() == t);
            assert(s.take(p + 1).last() == s[p as int]);
            if let Some(d) = flat[p].0 {
                assert(s[p as int].0 == Some(d));
                if !defs.contains_key(&d) {
                    defs.insert(d, p);
                    let ghost dor = def_order@;
                    def_order.push(d);
                    assert forall|a: int, b: int| 0 <= a < b < def_order@.len() implies def_order@[a] != def_order@[b] by {
                        if b == dor.len() {
                            assert(dor.contains(dor[a]));
                        } else {
                            assert(def_order@[a] == dor[a] && def_order@[b] == dor[b]);
                        }
                    }
                    assert forall|v: VReg| #[trigger] def_order@.contains(v) == (dor.contains(v) || v == d) by {
                        if def_order@.contains(v) {
                            let k = choose|k: int| 0 <= k < def_order@.len() && #[trigger] def_order@[k] == v;
                            if k < dor.len() {
                                assert(dor[k] == v);
                            }
                        }
                        if dor.contains(v) {
                            let k = choose|k: int| 0 <= k < dor.len() && #[trigger] dor[k] == v;
                            assert(def_order@[k] == v);
                        }
                        if v == d {
                            assert(def_order@[dor.len() as int] == v);
                        }
                    }
                }
            } else {
                assert(s[p as int].0 is None);
            }
            p = p + 1;
        }
        assert(s.take(s.len() as int) == s);
        let mut intervals: Vec<LiveInterval> = Vec::new();
        let mut i: usize = 0;
        while i < def_order.len()
            invariant
                s == positions(func@.blocks),
                forall|v: VReg| #[trigger] defs@.contains_key(v) == first_def(s, v) is Some,
                forall|v: VReg| defs@.contains_key(v) ==> first_def(s, v) == Some(#[trigger] defs@[v] as nat),
                forall|v: VReg| #[trigger] last@.contains_key(v) == last_use(s, v) is Some,
                forall|v: VReg| last@.contains_key(v) ==> last_use(s, v) == Some(#[trigger] last@[v] as nat),
                forall|v: VReg| #[trigger] def_order@.contains(v) == defs@.contains_key(v),
                forall|a: int, b: int| 0 <= a < b < def_order@.len() ==> def_order@[a] != def_order@[b],
                i <= def_order@.len(),
                intervals@.len() == i,
                forall|k: int| 0 <= k < i ==> (#[trigger] intervals@[k]).vreg == def_order@[k],
                forall|k: int| 0 <= k < i ==> #[trigger] intervals@[k] == interval_of(s, intervals@[k].vreg)
                    && mentioned(s, intervals@[k].vreg),
            decreases def_order@.len() - i,
        {
            let v = def_order[i];
            assert(def_order@.contains(v));
            let d = *defs.get(&v).unwrap();
            let e = match last.get(&v) {
                Some(u) => *u,
                None => d,
            };
            intervals.push(LiveInterval { vreg: v, start: d, end: e });
            i = i + 1;
        }
        let ghost nd = intervals@.len();
        let mut j: usize = 0;
        while j < use_order.len()
            invariant
                s == positions(func@.blocks),
                forall|v: VReg| #[trigger] defs@.contains_key(v) == first_def(s, v) is Some,
                forall|v: VReg| defs@.contains_key(v) ==> first_def(s, v) == Some(#[trigger] defs@[v] as nat),
                forall|v: VReg| #[trigger] last@.contains_key(v) == last_use(s, v) is Some,
                forall|v: VReg| last@.contains_key(v) ==> last_use(s, v) == Some(#[trigger] last@[v] as nat),
                forall|v: VReg| #[trigger] def_order@.contains(v) == defs@.contains_key(v),
                forall|v: VReg| #[trigger] use_order@.contains(v) == last@.contains_key(v),
                forall|a: int, b: int| 0 <= a < b < def_order@.len() ==> def_order@[a] != def_order@[b],
                forall|a: int, b: int| 0 <= a < b < use_order@.len() ==> use_order@[a] != use_order@[b],
                nd == def_order@.len(),
                j <= use_order@.len(),
                nd <= intervals@.len(),
                forall|k: int| 0 <= k < nd ==> (#[trigger] intervals@[k]).vreg == def_order@[k],
                forall|k: int| nd <= k < intervals@.len() ==> !defs@.contains_key((#[trigger] intervals@[k]).vreg)
                    && exists|q: int| 0 <= q < j && use_order@[q] == intervals@[k].vreg,
                forall|q: int| 0 <= q < j && !defs@.contains_key(#[trigger] use_order@[q]) ==> exists|k: int|
                    nd <= k < intervals@.len() && (#[trigger] intervals@[k]).vreg == use_order@[q],
                forall|a: int, b: int| nd <= a < b < intervals@.len() ==> intervals@[a].vreg != intervals@[b].vreg,
                forall|k: int| 0 <= k < intervals@.len() ==> #[trigger] intervals@[k] == interval_of(s, intervals@[k].vreg)
                    && mentioned(s, intervals@[k].vreg),
            decreases use_order@.len() - j,
        {
            let v = use_order[j];
            assert(use_order@.contains(v));
            if !defs.contains_key(&v) {
                let e = *last.get(&v).unwrap();
                let ghost before = intervals@;
                intervals.push(LiveInterval { vreg: v, start: 0, end: e });
                proof {
                    assert forall|a: int, b: int| nd <= a < b < intervals@.len() implies intervals@[a].vreg != intervals@[b].vreg by {
                        if b == before.len() {
                            let q = choose|q: int| 0 <= q < j && #[trigger] use_order@[q] == before[a].vreg;
                            assert(intervals@[a] == before[a]);
                        } else {
                            assert(intervals@[a] == before[a] && intervals@[b] == before[b]);
                        }
                    }
                    assert forall|k: int| nd <= k < intervals@.len() implies !defs@.contains_key((#[trigger] intervals@[k]).vreg)
                        && exists|q: int| 0 <= q < j + 1 && use_order@[q] == intervals@[k].vreg by {
                        if k < before.len() {
                            assert(intervals@[k] == before[k]);
                            let q = choose|q: int| 0 <= q < j && #[trigger] use_order@[q] == before[k].vreg;
                        } else {
                            assert(use_order@[j as int] == intervals@[k].vreg);
                        }
                    }
                    assert forall|q: int| 0 <= q < j + 1 && !defs@.contains_key(#[trigger] use_order@[q]) implies exists|k: int|
                        nd <= k < intervals@.len() && (#[trigger] intervals@[k]).vreg == use_order@[q] by {
                        if q < j {
                            let k = choose|k: int| nd <= k < before.len() && (#[trigger] before[k]).vreg == use_order@[q];
                            assert(intervals@[k] == before[k]);
                        } else {
                            assert(intervals@[before.len() as int].vreg == use_order@[q]);
                        }
                    }
                }
            } else {
                proof {
                    assert forall|k: int| nd <= k < intervals@.len() implies !defs@.contains_key((#[trigger] intervals@[k]).vreg)
                        && exists|q: int| 0 <= q < j + 1 && use_order@[q] == intervals@[k].vreg by {
                        let q = choose|q: int| 0 <= q < j && #[trigger] use_order@[q] == intervals@[k].vreg;
                    }
                }
            }
            j = j + 1;
        }
        proof {
            assert forall|a: int, b: int| 0 <= a < b < intervals@.len() implies intervals@[a].vreg != intervals@[b].vreg by {
                if b < nd {
                } else if a < nd {
                    assert(def_order@.contains(intervals@[a].vreg));
                }
            }
            assert forall|v: VReg| mentioned(s, v) implies exists|i: int| 0 <= i < intervals@.len() && (#[trigger] intervals@[i]).vreg == v by {
                if first_def(s, v) is Some {
                    assert(def_order@.contains(v));
                    let k = choose|k: int| 0 <= k < def_order@.len() && #[trigger] def_order@[k] == v;
                    assert(intervals@[k].vreg == v);
                } else {
                    assert(use_order@.contains(v));
                    let q = choose|q: int| 0 <= q < use_order@.len() && #[trigger] use_order@[q] == v;
                    let k = choose|k: int| nd <= k < intervals@.len() && (#[trigger] intervals@[k]).vreg == use_order@[q];
                }
            }
        }
        intervals
    }

    /// Places `interval`, which has no home yet: in a free machine register
    /// if one of the `active` count is free, else by spilling whichever of it
    /// and the active interval ending last ends later.
    fn place(&self, interval: LiveInterval, intervals: &Vec<LiveInterval>, regs: &Vec<PhysReg>,
        active: &mut Vec<(usize, VReg, PhysReg)>, reg_map: &mut HashMap<VReg, PhysReg>,
        spill_slots: &mut HashMap<VReg, usize>, next_spill_slot: &mut usize)
        requires
            regs@ == spec_all_regs(),
            state_ok(old(active)@, old(reg_map)@, old(spill_slots)@, *old(next_spill_slot) as nat),
            !old(reg_map)@.contains_key(interval.vreg),
            !old(spill_slots)@.contains_key(interval.vreg),
            forall|x: VReg| old(reg_map)@.contains_key(x) ==> exists|k: int| 0 <= k < intervals@.len()
                && (#[trigger] intervals@[k]).vreg == x,
            *old(next_spill_slot) < usize::MAX,
            forall|a: int, b: int| 0 <= a < b < intervals@.len() ==> intervals@[a].vreg != intervals@[b].vreg,
        ensures
            state_ok(final(active)@, final(reg_map)@, final(spill_slots)@, *final(next_spill_slot) as nat),
            (final(active)@, final(reg_map)@, final(spill_slots)@, *final(next_spill_slot) as nat)
                == scan_place((old(active)@, old(reg_map)@, old(spill_slots)@, *old(next_spill_slot) as nat), interval, intervals@),
            forall|x: VReg| final(reg_map)@.contains_key(x) || final(spill_slots)@.contains_key(x)
                ==> old(reg_map)@.contains_key(x) || old(spill_slots)@.contains_key(x) || x == interval.vreg,
            forall|x: VReg| old(spill_slots)@.contains_key(x) ==> final(spill_slots)@.contains_key(x),
            final(reg_map)@.contains_key(interval.vreg) || final(spill_slots)@.contains_key(interval.vreg),
            *final(next_spill_slot) <= *old(next_spill_slot) + 1,
    {
        let v = interval.vreg;
        let ghost a0 = active@;
        let ghost m0 = reg_map@;
        let ghost s0 = spill_slots@;
        let ghost n0 = *next_spill_slot as nat;
        if active.len() < regs.len() {
            let reg = regs[active.len()];
            reg_map.insert(v, reg);
            active.push((interval.end, v, reg));
            proof {
                assert forall|q: int| 0 <= q < active@.len() implies reg_map@.contains_key((#[trigger] active@[q]).1)
                    && reg_map@[active@[q].1] == active@[q].2 by {
                    if q < a0.len() {
                        assert(active@[q] == a0[q]);
                    }
                }
                assert forall|x: VReg| #[trigger] reg_map@.contains_key(x) implies exists|q: int| 0 <= q < active@.len() && active@[q].1 == x by {
                    if x == v {
                        assert(active@[a0.len() as int].1 == x);
                    } else {
                        let q = choose|q: int| 0 <= q < a0.len() && a0[q].1 == x;
                        assert(active@[q] == a0[q]);
                    }
                }
                assert forall|a: int, b: int| 0 <= a < b < active@.len() implies active@[a].1 != active@[b].1 by {
                    if b == a0.len() {
                        assert(active@[a] == a0[a]);
                        assert(m0.contains_key(a0[a].1));
                    } else {
                        assert(active@[a] == a0[a] && active@[b] == a0[b]);
                    }
                }
            }
            return;
        }
        let mut best: usize = 0;
        let mut q: usize = 1;
        while q < active.len()
            invariant
                active@ == a0,
                a0.len() >= 14,
                best < a0.len(),
                1 <= q <= a0.len(),
                forall|z: int| 0 <= z < q ==> a0[z].0 <= a0[best as int].0,
                best < q,
                best == last_max(a0.take(q as int)),
            decreases a0.len() - q,
        {
            proof {
                assert(a0.take(q + 1).drop_last() =~= a0.take(q as int));
                assert(a0.take(q + 1)[best as int] == a0[best as int]);
            }
            if active[q].0 >= active[best].0 {
                best = q;
            }
            q = q + 1;
        }
        proof {
            assert(a0.take(a0.len() as int) =~= a0);
        }
        let spill_candidate = active[best].1;
        proof {
            assert(m0.contains_key(spill_candidate));
        }
        let mut ci: usize = 0;
        while ci < intervals.len() && intervals[ci].vreg != spill_candidate
            invariant
                ci <= intervals@.len(),
                exists|k: int| 0 <= k < intervals@.len() && (#[trigger] intervals@[k]).vreg == spill_candidate,
                forall|z: int| 0 <= z < ci ==> intervals@[z].vreg != spill_candidate,
            decreases intervals@.len() - ci,
        {
            ci = ci + 1;
        }
        proof {
            if ci >= intervals@.len() {
                let k = choose|k: int| 0 <= k < intervals@.len() && (#[trigger] intervals@[k]).vreg == spill_candidate;
                assert(false);
            }
        }
        let candidate_end = intervals[ci].end;
        proof {
            let kk = choose|k: int| 0 <= k < intervals@.len() && intervals@[k].vreg == spill_candidate;
            if kk != ci {
                if kk < ci {
                    assert(intervals@[kk].vreg != intervals@[ci as int].vreg);
                } else {
                    assert(intervals@[ci as int].vreg != intervals@[kk].vreg);
                }
            }
            assert(candidate_end == end_in(intervals@, spill_candidate));
        }
        if candidate_end > interval.end {
            let reg = *reg_map.get(&spill_candidate).unwrap();
            reg_map.remove(&spill_candidate);
            let slot = self.get_spill_slot(next_spill_slot);
            spill_slots.insert(spill_candidate, slot);
            reg_map.insert(v, reg);
            let mut kept: Vec<(usize, VReg, PhysReg)> = Vec::new();
            let ghost mut idx: Seq<int> = Seq::empty();
            let mut k: usize = 0;
            while k < active.len()
                invariant
                    active@ == a0,
                    k <= a0.len(),
                    idx.len() == kept@.len(),
                    forall|z: int| 0 <= z < kept@.len() ==> 0 <= #[trigger] idx[z] < k && kept@[z] == a0[idx[z]]
                        && a0[idx[z]].1 != spill_candidate,
                    forall|a: int, b: int| 0 <= a < b < kept@.len() ==> idx[a] < idx[b],
                    forall|z: int| 0 <= z < k && (#[trigger] a0[z]).1 != spill_candidate ==> exists|w: int| 0 <= w < kept@.len() && idx[w] == z,
                    kept@ == without_reg(a0.take(k as int), spill_candidate),
                decreases a0.len() - k,
            {
                proof {
                    assert(a0.take(k + 1).drop_last() =~= a0.take(k as int));
                    assert(a0.take(k + 1).last() == a0[k as int]);
                }
                if active[k].1 != spill_candidate {
                    kept.push(active[k]);
                    proof {
                        let ib = idx;
                        idx = idx.push(k as int);
                        assert forall|z: int| 0 <= z < k + 1 && (#[trigger] a0[z]).1 != spill_candidate implies
                            exists|w: int| 0 <= w < kept@.len() && idx[w] == z by {
                            if z < k {
                                let w = choose|w: int| 0 <= w < ib.len() && ib[w] == z;
                                assert(idx[w] == z);
                            } else {
                                assert(idx[ib.len() as int] == z);
                            }
                        }
                    }
                }
                k = k + 1;
            }
            let ghost kv = kept@;
            proof {
                assert(a0.take(a0.len() as int) =~= a0);
            }
            kept.push((interval.end, v, reg));
            *active = kept;
            proof {
                assert forall|z: int| 0 <= z < active@.len() implies reg_map@.contains_key((#[trigger] active@[z]).1)
                    && reg_map@[active@[z].1] == active@[z].2 by {
                    if z < kv.len() {
                        assert(active@[z] == a0[idx[z]]);
                    }
                }
                assert forall|x: VReg| #[trigger] reg_map@.contains_key(x) implies exists|z: int| 0 <= z < active@.len() && active@[z].1 == x by {
                    if x == v {
                        assert(active@[kv.len() as int].1 == x);
                    } else {
                        let z = choose|z: int| 0 <= z < a0.len() && a0[z].1 == x;
                        let w = choose|w: int| 0 <= w < kv.len() && idx[w] == z;
                        assert(active@[w] == a0[z]);
                    }
                }
                assert forall|a: int, b: int| 0 <= a < b < active@.len() implies active@[a].1 != active@[b].1 by {
                    if b == kv.len() {
                        assert(active@[a] == a0[idx[a]]);
                        assert(m0.contains_key(a0[idx[a]].1));
                    } else {
                        assert(active@[a] == a0[idx[a]] && active@[b] == a0[idx[b]]);
                    }
                }
                assert(spill_slots@.dom() =~= s0.dom().insert(spill_candidate));
                assert forall|x: VReg, y: VReg| #[trigger] spill_slots@.contains_key(x) && #[trigger] spill_slots@.contains_key(y) && x != y
                    implies spill_slots@[x] != spill_slots@[y] by {
                    if x != spill_candidate && y != spill_candidate {
                        assert(s0.contains_key(x) && s0.contains_key(y));
                    } else if x == spill_candidate {
                        assert(s0.contains_key(y));
                    } else {
                        assert(s0.contains_key(x));
                    }
                }
            }
        } else {
            let slot = self.get_spill_slot(next_spill_slot);
            spill_slots.insert(v, slot);
            proof {
                assert(spill_slots@.dom() =~= s0.dom().insert(v));
                assert forall|x: VReg, y: VReg| #[trigger] spill_slots@.contains_key(x) && #[trigger] spill_slots@.contains_key(y) && x != y
                    implies spill_slots@[x] != spill_slots@[y] by {
                    if x != v && y != v {
                        assert(s0.contains_key(x) && s0.contains_key(y));
                    } else if x == v {
                        assert(s0.contains_key(y));
                    } else {
                        assert(s0.contains_key(x));
                    }
                }
            }
        }
    }

    /// Gives every register the function writes or reads a home: a machine
    /// register or a stack slot (8 bytes each), never both. Intervals are
    /// taken by start; when all machine registers are taken, the active
    /// interval that ends last (the later one on a tie) is spilled if it ends
    /// after the new one, else the new one is. Registers left without a home
    /// at the end get stack slots too. The result is `linear_scan` over the
    /// live intervals taken by start, with stack slots for the homeless
    /// handed out in the order the intervals were computed in.
    pub fn allocate(&self, func: &IrFunction) -> (r: Allocation)
        requires
            8 * live_regs(*func).len() <= usize::MAX,
        ensures
            exists|order: Seq<LiveInterval>, by: Seq<LiveInterval>| #![trigger linear_scan(by, order)]
                live_order(positions(func@.blocks), order) && live_order(positions(func@.blocks), by) && by_start(by)
                && r.reg_map@ == linear_scan(by, order).1 && r.spill_slots@ == linear_scan(by, order).2
                && r.stack_size == 8 * linear_scan(by, order).3,
            forall|v: VReg| mentioned(positions(func@.blocks), v)
                ==> r.reg_map@.contains_key(v) != r.spill_slots@.contains_key(v),
            forall|v: VReg| r.reg_map@.contains_key(v) || r.spill_slots@.contains_key(v)
                ==> mentioned(positions(func@.blocks), v),
            forall|v: VReg, w: VReg| r.spill_slots@.contains_key(v) && r.spill_slots@.contains_key(w) && v != w
                ==> r.spill_slots@[v] != r.spill_slots@[w],
            forall|v: VReg| r.spill_slots@.contains_key(v) ==> 8 * r.spill_slots@[v] < r.stack_size,
            r.stack_size == 8 * r.spill_slots@.dom().len(),
    {
        let intervals = self.compute_live_intervals(func);
        let ghost iv = intervals@;
        let ghost ivs = iv.map_values(|x: LiveInterval| x.vreg);
        let ghost live = live_regs(*func);
        proof {
            assert(ivs.no_duplicates());
            vstd::seq_lib::seq_to_set_is_finite(ivs);
            ivs.unique_seq_to_set();
            assert(ivs.to_set() =~= live) by {
                assert forall|v: VReg| ivs.to_set().contains(v) implies live.contains(v) by {
                    let k = choose|k: int| 0 <= k < ivs.len() && ivs[k] == v;
                    assert(iv[k].vreg == v);
                }
                assert forall|v: VReg| live.contains(v) implies ivs.to_set().contains(v) by {
                    let k = choose|k: int| 0 <= k < iv.len() && (#[trigger] iv[k]).vreg == v;
                    assert(ivs[k] == v);
                }
            }
        }
        let (sorted, Ghost(perm)) = sort_by_start(&intervals);
        proof {
            let s = positions(func@.blocks);
            assert(live_order(s, iv));
            assert forall|k: int| 0 <= k < sorted@.len() implies #[trigger] sorted@[k] == interval_of(s, sorted@[k].vreg)
                && mentioned(s, sorted@[k].vreg) by {
                assert(sorted@[k] == iv[perm[k]]);
            }
            assert forall|a: int, b: int| 0 <= a < b < sorted@.len() implies sorted@[a].vreg != sorted@[b].vreg by {
                assert(sorted@[a] == iv[perm[a]] && sorted@[b] == iv[perm[b]]);
                if perm[a] < perm[b] {
                    assert(iv[perm[a]].vreg != iv[perm[b]].vreg);
                } else {
                    assert(iv[perm[b]].vreg != iv[perm[a]].vreg);
                }
            }
            assert forall|v: VReg| mentioned(s, v) implies exists|k: int| 0 <= k < sorted@.len() && (#[trigger] sorted@[k]).vreg == v by {
                let m = choose|m: int| 0 <= m < iv.len() && (#[trigger] iv[m]).vreg == v;
                assert(picks(perm, m));
                let k = choose|k: int| 0 <= k < perm.len() && #[trigger] perm[k] == m;
                assert(sorted@[k] == iv[perm[k]]);
            }
            assert(live_order(s, sorted@));
            assert(by_start(sorted@));
        }
        let regs = all_regs();
        let mut reg_map: HashMap<VReg, PhysReg> = HashMap::new();
        let mut spill_slots: HashMap<VReg, usize> = HashMap::new();
        let mut next_spill_slot: usize = 0;
        let mut active: Vec<(usize, VReg, PhysReg)> = Vec::new();
        proof {
            assert(spill_slots@.dom() =~= Set::<VReg>::empty());
            assert(sorted@.take(0) =~= Seq::<LiveInterval>::empty());
            assert(reg_map@ =~= Map::<VReg, PhysReg>::empty());
            assert(spill_slots@ =~= Map::<VReg, usize>::empty());
            assert(active@ =~= Seq::<(usize, VReg, PhysReg)>::empty());
        }
        let mut i: usize = 0;
        while i < sorted.len()
            invariant
                iv == intervals@,
                regs@ == spec_all_regs(),
                sorted@.len() == iv.len(),
                perm.len() == sorted@.len(),
                forall|k: int| 0 <= k < sorted@.len() ==> 0 <= #[trigger] perm[k] < iv.len() && sorted@[k] == iv[perm[k]],
                forall|a: int, b: int| 0 <= a < b < sorted@.len() ==> perm[a] != perm[b],
                forall|a: int, b: int| 0 <= a < b < iv.len() ==> iv[a].vreg != iv[b].vreg,
                i <= sorted@.len(),
                next_spill_slot <= i,
                state_ok(active@, reg_map@, spill_slots@, next_spill_slot as nat),
                forall|v: VReg| reg_map@.contains_key(v) || spill_slots@.contains_key(v)
                    ==> exists|k: int| 0 <= k < i && (#[trigger] sorted@[k]).vreg == v,
                ivs == iv.map_values(|x: LiveInterval| x.vreg),
                ivs.to_set() == live,
                live == live_regs(*func),
                live.finite(),
                8 * live.len() <= usize::MAX,
                (active@, reg_map@, spill_slots@, next_spill_slot as nat) == scan_prefix(sorted@.take(i as int), iv),
                live_order(positions(func@.blocks), sorted@),
                live_order(positions(func@.blocks), iv),
                by_start(sorted@),
            decreases sorted@.len() - i,
        {
            let interval = sorted[i];
            let v = interval.vreg;
            proof {
                assert(sorted@.take(i + 1).drop_last() =~= sorted@.take(i as int));
                assert(sorted@.take(i + 1).last() == interval);
            }
            proof {
                if reg_map@.contains_key(v) || spill_slots@.contains_key(v) {
                    let k = choose|k: int| 0 <= k < i && (#[trigger] sorted@[k]).vreg == v;
                    assert(perm[k] != perm[i as int]);
                }
            }
            let ghost a0 = active@;
            let ghost m0 = reg_map@;
            self.expire_intervals(interval.start, &mut active, &mut reg_map);
            proof {
                lemma_expire_ok(a0, m0, active@, reg_map@, spill_slots@, next_spill_slot as nat, interval.start);
                assert forall|x: VReg| reg_map@.contains_key(x) implies exists|k: int| 0 <= k < intervals@.len()
                    && (#[trigger] intervals@[k]).vreg == x by {
                    let k = choose|k: int| 0 <= k < i && (#[trigger] sorted@[k]).vreg == x;
                    assert(sorted@[k] == iv[perm[k]]);
                }
            }
            let ghost m1 = reg_map@;
            let ghost sp1 = spill_slots@;
            self.place(interval, &intervals, &regs, &mut active, &mut reg_map, &mut spill_slots, &mut next_spill_slot);
            proof {
                assert forall|x: VReg| reg_map@.contains_key(x) || spill_slots@.contains_key(x)
                    implies exists|k: int| 0 <= k < i + 1 && (#[trigger] sorted@[k]).vreg == x by {
                    if x == v {
                        assert(sorted@[i as int].vreg == x);
                    } else if m1.contains_key(x) {
                        assert(m0.contains_key(x));
                    }
                }
            }
            i = i + 1;
        }
        proof {
            assert forall|x: VReg| reg_map@.contains_key(x) || spill_slots@.contains_key(x) implies live.contains(x) by {
                let k = choose|k: int| 0 <= k < i && (#[trigger] sorted@[k]).vreg == x;
                assert(sorted@[k] == iv[perm[k]]);
                assert(ivs[perm[k]] == x);
                assert(ivs.contains(x));
            }
        }
        let ghost after_scan: ScanState = (active@, reg_map@, spill_slots@, next_spill_slot as nat);
        proof {
            assert(sorted@.take(sorted@.len() as int) =~= sorted@);
            assert(iv.take(0) =~= Seq::<LiveInterval>::empty());
        }
        let mut j: usize = 0;
        while j < intervals.len()
            invariant
                after_scan == scan_prefix(sorted@, iv),
                live_order(positions(func@.blocks), sorted@),
                live_order(positions(func@.blocks), iv),
                by_start(sorted@),
                (active@, reg_map@, spill_slots@, next_spill_slot as nat) == fill_slots(after_scan, iv.take(j as int)),
                iv == intervals@,
                ivs == iv.map_values(|x: LiveInterval| x.vreg),
                ivs.to_set() == live,
                live == live_regs(*func),
                live.finite(),
                8 * live.len() <= usize::MAX,
                j <= iv.len(),
                next_spill_slot <= sorted@.len() + j,
                sorted@.len() == iv.len(),
                forall|x: VReg| !(reg_map@.contains_key(x) && #[trigger] spill_slots@.contains_key(x)),
                forall|x: VReg| #[trigger] spill_slots@.contains_key(x) ==> spill_slots@[x] < next_spill_slot,
                forall|x: VReg, y: VReg| #[trigger] spill_slots@.contains_key(x) && #[trigger] spill_slots@.contains_key(y) && x != y
                    ==> spill_slots@[x] != spill_slots@[y],
                next_spill_slot == spill_slots@.dom().len(),
                spill_slots@.dom().finite(),
                forall|x: VReg| reg_map@.contains_key(x) || spill_slots@.contains_key(x) ==> live.contains(x),
                forall|k: int| 0 <= k < j ==> reg_map@.contains_key((#[trigger] iv[k]).vreg) || spill_slots@.contains_key(iv[k].vreg),
            decreases iv.len() - j,
        {
            let v = intervals[j].vreg;
            assert(ivs[j as int] == v);
            proof {
                assert(iv.take(j + 1).drop_last() =~= iv.take(j as int));
                assert(iv.take(j + 1).last().vreg == v);
            }
            if !reg_map.contains_key(&v) && !spill_slots.contains_key(&v) {
                proof {
                    assert(spill_slots@.dom().subset_of(live));
                    vstd::set_lib::lemma_len_subset(spill_slots@.dom(), live);
                    assert(spill_slots@.dom().insert(v).subset_of(live));
                    vstd::set_lib::lemma_len_subset(spill_slots@.dom().insert(v), live);
                }
                let ghost s0 = spill_slots@;
                let slot = self.get_spill_slot(&mut next_spill_slot);
                spill_slots.insert(v, slot);
                proof {
                    assert(spill_slots@.dom() =~= s0.dom().insert(v));
                    assert forall|x: VReg, y: VReg| #[trigger] spill_slots@.contains_key(x) && #[trigger] spill_slots@.contains_key(y) && x != y
                        implies spill_slots@[x] != spill_slots@[y] by {
                        if x != v && y != v {
                            assert(s0.contains_key(x) && s0.contains_key(y));
                        } else if x == v {
                            assert(s0.contains_key(y));
                        } else {
                            assert(s0.contains_key(x));
                        }
                    }
                }
            }
            j = j + 1;
        }
        proof {
            assert(spill_slots@.dom().subset_of(live));
            vstd::set_lib::lemma_len_subset(spill_slots@.dom(), live);
            assert forall|v: VReg| mentioned(positions(func@.blocks), v) implies
                reg_map@.contains_key(v) != spill_slots@.contains_key(v) by {
                assert(live.contains(v));
                assert(ivs.to_set().contains(v));
                let k = choose|k: int| 0 <= k < ivs.len() && ivs[k] == v;
                assert(iv[k].vreg == v);
            }
            assert forall|v: VReg| reg_map@.contains_key(v) || spill_slots@.contains_key(v)
                implies mentioned(positions(func@.blocks), v) by {
                assert(live.contains(v));
            }
            assert(iv.take(iv.len() as int) =~= iv);
            assert(linear_scan(sorted@, iv) == (active@, reg_map@, spill_slots@, next_spill_slot as nat));
        }
        Allocation { reg_map, spill_slots, stack_size: next_spill_slot * 8 }
    }
}

} // verus!
