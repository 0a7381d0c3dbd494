//! The memory layout of lowered programs.

use crate::cir::BufferInfo;
use crate::cir::CirModule;
use crate::cir::VarId;
use crate::cir::VarKind;
use crate::error::GuardErrorView;
use crate::error::SpanView;
use crate::lcir;
use crate::lcir::AtomicOp;
use crate::lcir::BlockId;
use crate::lcir::HaltReasonView;
use crate::lcir::StmtView;
use crate::lcir::TerminatorView;
use crate::table;
use crate::lowering::Lowering;
use crate::lowering::covered;
use crate::lowering::covers_slot;
use crate::lowering::first_vacant;
use crate::lowering::kind_of;
use crate::lowering::lemma_checks;
use crate::lowering::lemma_enter_loop;
use crate::lowering::lemma_map;
use crate::lowering::lemma_module;
use crate::lowering::lemma_module_grows;
use crate::lowering::lemma_preparation;
use crate::lowering::lemma_preparation_grows;
use crate::lowering::lower_all;
use crate::lowering::lower_checks;
use crate::lowering::map_all;
use crate::lowering::mapped_all;
use crate::lowering::place_buffers;
use crate::lowering::place_constants;
use crate::lowering::placed_all;
use crate::lowering::prepared;
use crate::lowering::recorded_slot;
use crate::lowering::records;
use crate::lowering::region;
use crate::lowering::retained;
use vstd::prelude::*;

verus! {

/// The variable with the number `i` in the symbol table has its LCIR variable and
/// a slot for its kind in which no buffer keeps a sample.
pub open spec fn in_place(s: Lowering, module: CirModule, i: int) -> bool {
    let (var, info) = module.symbol_table.vars@[i];
    let (id, slot) = s.builder.program.slot_map[i];
    &&& s.var_map[i] == (var, VarId((1000 + i) as u32))
    &&& id == 1000 + i
    &&& region(info.kind).0 <= slot < region(info.kind).1
    &&& !covered(module.symbol_table.buffers@, slot as int)
}

/// The first `n` variables of the symbol table have consecutive LCIR variables,
/// and each has a slot for its kind that no other one has and in which no buffer
/// keeps a sample.
pub open spec fn laid_out(s: Lowering, module: CirModule, n: nat) -> bool {
    &&& s.var_map.len() == n
    &&& s.builder.next_var == 1000 + n
    &&& s.builder.program.slot_map.len() == n
    &&& forall|i: int| 0 <= i < n ==> #[trigger] in_place(s, module, i)
    &&& forall|i: int, j: int|
        0 <= i < j < n ==> (#[trigger] s.builder.program.slot_map[i]).1 != (
        #[trigger] s.builder.program.slot_map[j]).1
}

/// Mapping the variables lays them out.
proof fn lemma_laid_out(module: CirModule, n: nat)
    requires
        n <= module.symbol_table.vars@.len(),
        table::keys_distinct(module.symbol_table.vars@),
        map_all(Lowering::new(module.name@, module.version@), module, n).fits(),
    ensures
        laid_out(
            map_all(Lowering::new(module.name@, module.version@), module, n),
            module,
            n,
        ),
    decreases n,
{
    let start = Lowering::new(module.name@, module.version@);
    if n > 0 {
        let k = (n - 1) as nat;
        let vars = module.symbol_table.vars@;
        let (s, t) = (map_all(start, module, k), map_all(start, module, n));
        let var = VarId(vars[n - 1].0);
        lemma_preparation_grows(start, module, k, n);
        lemma_preparation(start, module, k);
        lemma_laid_out(module, k);
        table::lemma_place_of(s.var_map, var.0);
        if table::lookup(s.var_map, var.0) is Some {
            let i = table::place_of(s.var_map, var.0);
            assert(in_place(s, module, i));
            assert(vars[i].0 == vars[n - 1].0);
        }
        table::lemma_place_of_distinct(vars, n - 1);
        assert(kind_of(module, var) == vars[n - 1].1.kind);
        lemma_map(s, module, var);
        let id = s.builder.new_var();
        let slot = t.slot(id);
        let (a, b) = (s.builder.program.slot_map, t.builder.program.slot_map);
        table::lemma_place_of(a, id.0);
        assert(b =~= a.push((id.0, slot))) by {
            table::lemma_place_of_distinct(b, b.len() - 1);
        }
        assert(t.var_map =~= s.var_map.push((var.0, id)));
        assert(t.builder.next_var == 1000 + n);
        assert forall|i: int, j: int| 0 <= i < j < n implies (#[trigger] b[i]).1 != (
        #[trigger] b[j]).1 by {
            assert(b[i] == a[i]);
            if j < k {
                assert(b[j] == a[j]);
            } else {
                assert(lcir::taken(a, a[i].1));
            }
        }
        assert forall|i: int| 0 <= i < n implies #[trigger] in_place(t, module, i) by {
            if i < k {
                assert(in_place(s, module, i));
                assert(b[i] == a[i]);
            }
        }
    }
}

/// Placing the buffers gives no variable a slot.
proof fn lemma_buffers_keep(s: Lowering, module: CirModule, n: nat)
    ensures
        place_buffers(s, module, n).builder == s.builder,
        place_buffers(s, module, n).var_map == s.var_map,
    decreases n,
{
    if n > 0 {
        lemma_buffers_keep(s, module, (n - 1) as nat);
    }
}

/// All variables of the symbol table are laid out.
proof fn lemma_laid_out_all(module: CirModule)
    requires
        lower_all(module).0.fits(),
        table::keys_distinct(module.symbol_table.vars@),
    ensures
        laid_out(mapped_all(module), module, module.symbol_table.vars@.len()),
{
    lemma_module_grows(module);
    lemma_laid_out(module, module.symbol_table.vars@.len());
}

/// The slot that mapping gives a variable of the symbol table is its slot in the
/// lowered program.
proof fn lemma_slot_of(module: CirModule, i: int)
    requires
        lower_all(module).0.fits(),
        lower_all(module).1 is Ok,
        table::keys_distinct(module.symbol_table.vars@),
        0 <= i < module.symbol_table.vars@.len(),
    ensures
        in_place(mapped_all(module), module, i),
        table::lookup(lower_all(module).1->Ok_0.slot_map, (1000 + i) as u32) == Some(
            mapped_all(module).builder.program.slot_map[i].1,
        ),
{
    let s = mapped_all(module);
    lemma_laid_out_all(module);
    lemma_module(module);
    lemma_buffers_keep(s, module, module.symbol_table.buffers@.len());
    let map = s.builder.program.slot_map;
    let (pm, qm) = (
        prepared(module).builder.program.slot_map,
        lower_all(module).1->Ok_0.slot_map,
    );
    assert(map.is_prefix_of(pm));
    assert(map.is_prefix_of(qm));
    assert(in_place(s, module, i));
    assert(qm[i] == map[i]);
    table::lemma_place_of_distinct(qm, i);
}

/// Memory is laid out by kind: the LCIR variables of the symbol table are
/// numbered from 1000 on in its order, and each has its own slot, a constant
/// below 32, a state variable from 32 on below 128, a temporal one from 128 on
/// below 224, a local one from 224 on. No history buffer keeps a sample there.
pub proof fn law_memory_layout(module: CirModule, i: int, j: int)
    requires
        lower_all(module).0.fits(),
        lower_all(module).1 is Ok,
        table::keys_distinct(module.symbol_table.vars@),
        0 <= i < module.symbol_table.vars@.len(),
        0 <= j < module.symbol_table.vars@.len(),
    ensures
        ({
            let p = lower_all(module).1->Ok_0;
            let kind = module.symbol_table.vars@[i].1.kind;
            let (a, b) = (
                table::lookup(p.slot_map, (1000 + i) as u32),
                table::lookup(p.slot_map, (1000 + j) as u32),
            );
            &&& a is Some
            &&& kind is Constant ==> a->0 <= 31
            &&& kind is State ==> 32 <= a->0 <= 127
            &&& kind is Temporal ==> 128 <= a->0 <= 223
            &&& kind is Local ==> 224 <= a->0
            &&& !covered(module.symbol_table.buffers@, a->0 as int)
            &&& i != j ==> a != b
        }),
{
    lemma_slot_of(module, i);
    lemma_slot_of(module, j);
    lemma_laid_out_all(module);
    let map = mapped_all(module).builder.program.slot_map;
    if i < j {
        assert(map[i].1 != map[j].1);
    } else if j < i {
        assert(map[j].1 != map[i].1);
    }
}

/// The buffers keep the slots that the symbol table gives their heads.
proof fn lemma_buffer_slots(s: Lowering, module: CirModule, n: nat)
    requires
        n <= module.symbol_table.buffers@.len(),
        table::keys_distinct(module.symbol_table.buffers@),
        s.buffer_slots.len() == 0,
    ensures
        ({
            let slots = place_buffers(s, module, n).buffer_slots;
            let buffers = module.symbol_table.buffers@;
            &&& slots.len() == n
            &&& forall|i: int|
                0 <= i < n ==> #[trigger] slots[i] == (buffers[i].0, buffers[i].1.slot_base)
        }),
    decreases n,
{
    if n > 0 {
        let k = (n - 1) as nat;
        lemma_buffer_slots(s, module, k);
        let buffers = module.symbol_table.buffers@;
        let slots = place_buffers(s, module, k).buffer_slots;
        table::lemma_place_of(slots, buffers[n - 1].0);
        if table::place_of(slots, buffers[n - 1].0) >= 0 {
            let i = table::place_of(slots, buffers[n - 1].0);
            assert(slots[i].0 == buffers[i].0);
        }
    }
}

/// Mapping variables places no buffer.
proof fn lemma_mapping_keeps_buffers(s: Lowering, module: CirModule, n: nat)
    ensures
        map_all(s, module, n).buffer_slots == s.buffer_slots,
    decreases n,
{
    if n > 0 {
        lemma_mapping_keeps_buffers(s, module, (n - 1) as nat);
    }
}

/// What the buffers say of a variable's history.
proof fn lemma_recorded(slots: Seq<(u32, u8)>, buffers: Seq<(u32, BufferInfo)>, var: VarId, from: int)
    requires
        table::keys_distinct(buffers),
        slots.len() == buffers.len(),
        forall|i: int|
            0 <= i < slots.len() ==> #[trigger] slots[i] == (buffers[i].0, buffers[i].1.slot_base),
        0 <= from <= slots.len(),
    ensures
        recorded_slot(slots, buffers, var, from) matches Some(slot) ==> exists|i: int|
            0 <= i < buffers.len() && (#[trigger] buffers[i]).1.var == var
                && buffers[i].1.slot_base == slot && buffers[i].1.depth == retained(
                buffers,
                var,
                from,
            ),
        recorded_slot(slots, buffers, var, from) is None <==> forall|i: int|
            from <= i < buffers.len() ==> (#[trigger] buffers[i]).1.var != var,
    decreases slots.len() - from,
{
    if from < slots.len() {
        lemma_recorded(slots, buffers, var, from + 1);
        table::lemma_place_of_distinct(buffers, from);
        assert(slots[from].0 == buffers[from].0);
        assert(records(buffers, slots[from].0, var) == (buffers[from].1.var == var));
    }
}

/// The history of a recorded variable begins in the slot that the symbol table
/// gives the head of its first buffer, and no other slot serves it.
pub proof fn law_history_is_in_its_buffer(module: CirModule, var: VarId)
    requires
        lower_all(module).0.fits(),
        table::keys_distinct(module.symbol_table.buffers@),
    ensures
        ({
            let buffers = module.symbol_table.buffers@;
            let slots = prepared(module).buffer_slots;
            &&& recorded_slot(slots, buffers, var, 0) matches Some(slot) ==> exists|i: int|
                0 <= i < buffers.len() && (#[trigger] buffers[i]).1.var == var
                    && buffers[i].1.slot_base == slot && buffers[i].1.depth == retained(
                    buffers,
                    var,
                    0,
                )
            &&& recorded_slot(slots, buffers, var, 0) is None <==> forall|i: int|
                0 <= i < buffers.len() ==> (#[trigger] buffers[i]).1.var != var
        }),
{
    let start = Lowering::new(module.name@, module.version@);
    let buffers = module.symbol_table.buffers@;
    lemma_module_grows(module);
    lemma_module(module);
    lemma_mapping_keeps_buffers(start, module, module.symbol_table.vars@.len());
    lemma_buffer_slots(mapped_all(module), module, buffers.len());
    assert(prepared(module).buffer_slots == placed_all(module).buffer_slots);
    lemma_recorded(prepared(module).buffer_slots, buffers, var, 0);
}

/// A lowered program counts the different slots that its variables have.
pub proof fn law_slots_are_counted(module: CirModule)
    requires
        lower_all(module).0.fits(),
        lower_all(module).1 is Ok,
    ensures
        ({
            let p = lower_all(module).1->Ok_0;
            p.slot_count == lcir::slots_used(p.slot_map)
        }),
{
    lemma_module(module);
}

/// No variable has the slot, and no buffer keeps a sample in it: neither the one at
/// hand, in the slot of its head, nor one of those that it retains, in the slots after
/// it.
pub open spec fn is_free(s: Lowering, module: CirModule, slot: int) -> bool {
    let map = s.builder.program.slot_map;
    let buffers = module.symbol_table.buffers@;
    &&& forall|i: int| 0 <= i < map.len() ==> (#[trigger] map[i]).1 != slot
    &&& forall|i: int|
        0 <= i < buffers.len() ==> slot < (#[trigger] buffers[i]).1.slot_base || slot
            > buffers[i].1.slot_base + buffers[i].1.depth
}

/// A vacant slot is one that is free.
proof fn lemma_vacant_is_free(s: Lowering, module: CirModule, from: int, to: int, slot: int)
    requires
        0 <= from <= slot <= to <= 256,
        forall|y: int| from <= y < slot ==> !(#[trigger] is_free(s, module, y)),
        slot < to ==> is_free(s, module, slot),
    ensures
        first_vacant(s.builder.program.slot_map, module.symbol_table.buffers@, from, to) == if slot
            < to {
            Some(slot as u8)
        } else {
            None::<u8>
        },
    decreases slot - from,
{
    let map = s.builder.program.slot_map;
    let buffers = module.symbol_table.buffers@;
    if from < slot {
        assert(!is_free(s, module, from));
        if forall|i: int| 0 <= i < map.len() ==> (#[trigger] map[i]).1 != from {
            let i = choose|i: int|
                0 <= i < buffers.len() && !(from < (#[trigger] buffers[i]).1.slot_base || from
                    > buffers[i].1.slot_base + buffers[i].1.depth);
            assert(covers_slot(buffers[i].1, from));
        } else {
            let i = choose|i: int| 0 <= i < map.len() && (#[trigger] map[i]).1 == from;
            assert(map[i].1 == from as u8);
        }
        lemma_vacant_is_free(s, module, from + 1, to, slot);
    } else if from < to {
        assert(!lcir::taken(map, from as u8)) by {
            if lcir::taken(map, from as u8) {
                let i = choose|i: int| 0 <= i < map.len() && (#[trigger] map[i]).1 == from as u8;
                assert(map[i].1 == from);
            }
        }
        assert(!covered(buffers, from));
    }
}

/// A variable gets the lowest free slot of those for its kind: constants those from 0
/// to 31, state variables those from 32 to 127, temporal ones those from 128 to 223,
/// and locals those from 224 on that temporaries do not want. There is no room for it
/// only where none of them is free.
pub proof fn law_lowest_free_slot_is_given(
    s: Lowering,
    module: CirModule,
    var: VarId,
    kind: VarKind,
    slot: int,
)
    requires
        table::lookup(s.builder.program.slot_map, var.0) is None,
        0 <= s.depth <= 32,
        ({
            let (low, high) = match kind {
                VarKind::Constant => (0int, 32int),
                VarKind::State => (32, 128),
                VarKind::Temporal => (128, 224),
                VarKind::Local => (224, 256 - s.depth),
            };
            &&& low <= slot <= high
            &&& forall|y: int| low <= y < slot ==> !(#[trigger] is_free(s, module, y))
            &&& slot < high ==> is_free(s, module, slot)
        }),
    ensures
        ({
            let high = match kind {
                VarKind::Constant => 32int,
                VarKind::State => 128,
                VarKind::Temporal => 224,
                VarKind::Local => 256 - s.depth,
            };
            let t = s.settle(module, var, kind);
            &&& slot < high ==> t.room == s.room && t.builder.program.slot_map
                == s.builder.program.slot_map.push((var.0, slot as u8))
            &&& slot < high ==> t.floor == if slot < s.floor {
                s.floor
            } else {
                slot + 1
            }
            &&& slot == high ==> !t.room && t.builder == s.builder
        }),
{
    lemma_vacant_is_free(s, module, region(kind).0, s.ceiling(kind), slot);
    table::lemma_place_of(s.builder.program.slot_map, var.0);
}

/// A temporary gets the highest slot below those of the temporaries whose values are
/// still wanted, the first one 255. There is no room for it only where a local
/// variable may have that slot.
pub proof fn law_temporaries_go_downwards(s: Lowering, op: AtomicOp)
    requires
        s.sound(),
        0 <= s.depth < 32,
        s.builder.next_var <= u32::MAX,
    ensures
        ({
            let t = s.assign(op);
            &&& t.builder.program.slot_map == s.builder.program.slot_map.push(
                (s.builder.next_var as u32, (255 - s.depth) as u8),
            )
            &&& t.depth == s.depth + 1
            &&& t.room == (s.room && s.floor <= 255 - s.depth)
            &&& t.floor == s.floor
        }),
{
    let map = s.builder.program.slot_map;
    table::lemma_place_of(map, s.builder.next_var as u32);
    assert forall|i: int| 0 <= i < map.len() implies (#[trigger] map[i]).0
        != s.builder.next_var as u32 by {}
}

/// A lowered program has the name and the version of its module. Before the checks
/// stand the head of the constraint loop, which leaves a trace and goes on to the
/// body, and the end, which halts.
pub proof fn law_frame_of_a_program(module: CirModule)
    requires
        lower_all(module).0.fits(),
        lower_all(module).1 is Ok,
    ensures
        ({
            let p = lower_all(module).1->Ok_0;
            &&& p.name == module.name@
            &&& p.version == module.version@
            &&& p.entry == BlockId(0)
            &&& p.blocks.len() >= 4
            &&& p.blocks[0].terminator == TerminatorView::Jump(BlockId(1))
            &&& p.blocks[1].label == "loop_head"@
            &&& p.blocks[1].terminator == TerminatorView::Jump(BlockId(2))
            &&& p.blocks[1].stmts.len() == 1
            &&& p.blocks[1].stmts[0] is Trace
            &&& p.blocks[1].stmts[0]->Trace_label == "constraint_loop"@
            &&& p.blocks[3].label == "loop_exit"@
            &&& p.blocks[3].stmts.len() == 0
            &&& p.blocks[3].terminator == TerminatorView::Halt { reason: HaltReasonView::Normal }
        }),
{
    let p = lower_all(module).1->Ok_0;
    let start = Lowering::new(module.name@, module.version@);
    let s = prepared(module);
    let entered = s.enter_loop();
    let count = module.invariants@.len();
    let t = lower_checks(entered, module, module.invariants@, count).0;
    lemma_module_grows(module);
    lemma_module(module);
    lemma_enter_loop(s);
    lemma_checks(entered, module, module.invariants@, count);
    lemma_preparation_grows(start, module, 0, module.symbol_table.vars@.len());
    lemma_preparation_grows(mapped_all(module), module, 0, module.symbol_table.buffers@.len());
    lemma_preparation_grows(placed_all(module), module, 0, module.symbol_table.vars@.len());
    let (b, c) = (entered.builder.program.blocks, t.builder.program.blocks);
    assert(c[0] == b[0] && c[1] == b[1] && c[3] == b[3]);
    assert(p.blocks[0] == b[0] && p.blocks[1] == b[1]);
}

/// A CIR variable that has no LCIR variable gets the next one, and one that has one
/// keeps it. No other variable is affected.
pub proof fn law_variables_are_mapped_once(s: Lowering, module: CirModule, v: VarId, w: VarId)
    requires
        table::keys_distinct(s.var_map),
        0 <= s.builder.next_var <= u32::MAX,
    ensures
        ({
            let t = s.after_map(module, v);
            let before = table::lookup(s.var_map, v.0);
            &&& before matches Some(id) ==> s.mapped(v) == id && t.var_map == s.var_map
            &&& before is None ==> s.mapped(v).0 == s.builder.next_var
                && t.builder.next_var == s.builder.next_var + 1
            &&& table::lookup(t.var_map, v.0) == Some(s.mapped(v))
            &&& w != v ==> table::lookup(t.var_map, w.0) == table::lookup(s.var_map, w.0)
            &&& t.mapped(v) == s.mapped(v)
        }),
{
    table::law_lookup_after_put(s.var_map, v.0, s.builder.new_var(), w.0);
    table::law_lookup_after_put(s.var_map, v.0, s.builder.new_var(), v.0);
}

/// Where no buffer records a variable that has its LCIR variable and slot, the history
/// is looked for in the variable's own slot.
pub proof fn law_history_without_a_buffer(s: Lowering, module: CirModule, v: VarId, id: VarId)
    requires
        table::lookup(s.var_map, v.0) == Some(id),
        table::lookup(s.builder.program.slot_map, id.0) is Some,
        recorded_slot(s.buffer_slots, module.symbol_table.buffers@, v, 0) is None,
    ensures
        Some(s.history(module, v)) == table::lookup(s.builder.program.slot_map, id.0),
        s.after_history(module, v) == s.demand(true),
{
}

/// The result of an operation goes to a new variable in one statement at the end of the
/// current block. Added code has its place in the file `<lower>`.
pub proof fn law_operations_are_assigned(s: Lowering, op: AtomicOp)
    requires
        s.builder.current_block.0 < s.builder.program.blocks.len(),
        0 <= s.builder.next_var <= u32::MAX,
    ensures
        ({
            let (before, after) = (
                s.builder.current().stmts,
                s.assign(op).builder.current().stmts,
            );
            let stmt = after.last();
            &&& after.len() == before.len() + 1
            &&& after.drop_last() == before
            &&& stmt is Assign
            &&& stmt->Assign_dest.0 == s.builder.next_var
            &&& stmt->Assign_op == op
            &&& stmt->Assign_span == (SpanView {
                file: "<lower>"@,
                start_line: 0,
                start_col: 0,
                end_line: 0,
                end_col: 0,
            })
            &&& s.assign(op).builder.next_var == s.builder.next_var + 1
            &&& s.compute(op) == (
                s.assign(op),
                Ok::<VarId, GuardErrorView>(VarId(s.builder.next_var as u32)),
            )
        }),
{
    assert(s.assign(op).builder.current().stmts.drop_last() =~= s.builder.current().stmts);
}

/// The blocks of a check are named after the invariant, and those of a conditional
/// after what they are for. Each branches or jumps from the block before.
pub proof fn law_new_blocks_are_labelled(s: Lowering, name: Seq<char>, cond: VarId)
    requires
        s.builder.current_block.0 < s.builder.program.blocks.len(),
        s.builder.next_block == s.builder.program.blocks.len(),
        s.builder.next_block + 2 <= u32::MAX,
    ensures
        ({
            let n = s.builder.program.blocks.len() as int;
            let at = s.builder.current_block.0 as int;
            let (free, guarded, forked) = (
                s.open_check(name, None).builder.program.blocks,
                s.open_check(name, Some(cond)).builder.program.blocks,
                s.fork(cond).builder.program.blocks,
            );
            &&& free.len() == n + 2 && guarded.len() == n + 2 && forked.len() == n + 3
            &&& free[n].label == "inv_"@ + name && guarded[n].label == "inv_"@ + name
            &&& free[n + 1].label == "inv_"@ + name + "_done"@
            &&& guarded[n + 1].label == "inv_"@ + name + "_done"@
            &&& free[at].terminator == TerminatorView::Jump(BlockId(n as u32))
            &&& guarded[at].terminator == (TerminatorView::Branch {
                cond,
                then_target: BlockId(n as u32),
                else_target: BlockId((n + 1) as u32),
            })
            &&& forked[n].label == "if_then"@
            &&& forked[n + 1].label == "if_else"@
            &&& forked[n + 2].label == "if_merge"@
            &&& forked[at].terminator == (TerminatorView::Branch {
                cond,
                then_target: BlockId(n as u32),
                else_target: BlockId((n + 1) as u32),
            })
        }),
{
}

/// The statement stores the LCIR variable with the number in its own slot, before the
/// loop.
pub open spec fn initializes(stmt: StmtView, slot_map: Seq<(u32, u8)>, i: int) -> bool {
    match stmt {
        StmtView::Store { src, slot, span } => {
            &&& src.0 == 1000 + i
            &&& table::lookup(slot_map, src.0) == Some(slot)
            &&& span == (SpanView {
                file: "<init>"@,
                start_line: 0,
                start_col: 0,
                end_line: 0,
                end_col: 0,
            })
        },
        _ => false,
    }
}

/// The number of constants among the first `n` variables.
pub open spec fn constants_before(module: CirModule, n: nat) -> nat
    decreases n,
{
    if n == 0 {
        0
    } else {
        constants_before(module, (n - 1) as nat)
            + if module.symbol_table.vars@[n - 1].1.kind is Constant {
            1nat
        } else {
            0nat
        }
    }
}

/// The stores of the constants among the first `n` variables.
proof fn lemma_constants_stored(s: Lowering, module: CirModule, n: nat)
    requires
        n <= module.symbol_table.vars@.len(),
        table::keys_distinct(module.symbol_table.vars@),
        laid_out(s, module, module.symbol_table.vars@.len()),
        table::keys_distinct(s.var_map),
        table::keys_distinct(s.builder.program.slot_map),
        s.builder.program.blocks.len() == 1,
        s.builder.current_block.0 == 0,
        s.builder.program.blocks[0].stmts.len() == 0,
    ensures
        ({
            let t = place_constants(s, module, n);
            let stmts = t.builder.program.blocks[0].stmts;
            &&& t.var_map == s.var_map
            &&& t.builder.program.slot_map == s.builder.program.slot_map
            &&& t.builder.program.blocks.len() == 1
            &&& t.builder.current_block.0 == 0
            &&& stmts.len() == constants_before(module, n)
            &&& forall|i: int|
                0 <= i < n && module.symbol_table.vars@[i].1.kind is Constant ==> initializes(
                    stmts[#[trigger] constants_before(module, i as nat) as int],
                    s.builder.program.slot_map,
                    i,
                ) && constants_before(module, i as nat) < stmts.len()
        }),
    decreases n,
{
    if n > 0 {
        let k = (n - 1) as nat;
        let vars = module.symbol_table.vars@;
        lemma_constants_stored(s, module, k);
        let before = place_constants(s, module, k);
        let map = s.builder.program.slot_map;
        assert(in_place(s, module, n - 1));
        table::lemma_place_of_distinct(s.var_map, n - 1);
        table::lemma_place_of_distinct(map, n - 1);
        assert(before.mapped(VarId(vars[n - 1].0)).0 == 1000 + (n - 1));
    }
}

/// Every constant is stored before the loop: the entry block has one statement for
/// each, in the order of the symbol table, and no other ones.
pub proof fn law_constants_are_stored(module: CirModule, i: int)
    requires
        lower_all(module).0.fits(),
        lower_all(module).1 is Ok,
        table::keys_distinct(module.symbol_table.vars@),
        0 <= i < module.symbol_table.vars@.len(),
    ensures
        ({
            let p = lower_all(module).1->Ok_0;
            let stmts = p.blocks[0].stmts;
            let place = constants_before(module, i as nat) as int;
            &&& stmts.len() == constants_before(module, module.symbol_table.vars@.len())
            &&& module.symbol_table.vars@[i].1.kind is Constant ==> place < stmts.len()
                && initializes(stmts[place], p.slot_map, i)
        }),
{
    let p = lower_all(module).1->Ok_0;
    let s = prepared(module);
    let placed = placed_all(module);
    let entered = s.enter_loop();
    let count = module.invariants@.len();
    let n = module.symbol_table.vars@.len();
    lemma_laid_out_all(module);
    lemma_module_grows(module);
    lemma_module(module);
    lemma_buffers_keep(mapped_all(module), module, module.symbol_table.buffers@.len());
    lemma_nothing_emitted(
        Lowering::new(module.name@, module.version@),
        module,
        n,
    );
    assert forall|j: int| 0 <= j < n implies #[trigger] in_place(placed, module, j) by {
        assert(in_place(mapped_all(module), module, j));
    }
    lemma_constants_stored(placed, module, n);
    lemma_enter_loop(s);
    lemma_checks(entered, module, module.invariants@, count);
    let t = lower_checks(entered, module, module.invariants@, count).0;
    assert(t.builder.program.blocks[0] == entered.builder.program.blocks[0]);
    assert(p.blocks[0].stmts == s.builder.program.blocks[0].stmts);
    if module.symbol_table.vars@[i].1.kind is Constant {
        let stmt = p.blocks[0].stmts[constants_before(module, i as nat) as int];
        assert(initializes(stmt, s.builder.program.slot_map, i));
        table::lemma_lookup_prefix(
            s.builder.program.slot_map,
            p.slot_map,
            stmt->Store_src.0,
        );
    }
}

/// Mapping variables emits nothing.
proof fn lemma_nothing_emitted(s: Lowering, module: CirModule, n: nat)
    ensures
        map_all(s, module, n).builder.program.blocks == s.builder.program.blocks,
        map_all(s, module, n).builder.current_block == s.builder.current_block,
    decreases n,
{
    if n > 0 {
        lemma_nothing_emitted(s, module, (n - 1) as nat);
    }
}

/// The slot of a CIR variable is that of its LCIR variable. Without one it can have a
/// slot under its own number, as long as that is below those of LCIR variables.
pub proof fn law_slot_of_a_variable(s: Lowering, module: CirModule, v: VarId)
    ensures
        ({
            let t = s.after_slot_for(module, v);
            let owner = s.slot_owner(v);
            let settled = s.settle(module, owner, kind_of(module, v));
            &&& table::lookup(s.var_map, v.0) matches Some(id) ==> owner == id
            &&& table::lookup(s.var_map, v.0) is None ==> owner == v
            &&& t.builder == settled.builder
            &&& t.room == (settled.room && (table::lookup(s.var_map, v.0) is Some || v.0 < 1000))
        }),
        kind_of(module, v) == match table::lookup(module.symbol_table.vars@, v.0) {
            Some(info) => info.kind,
            None => VarKind::Local,
        },
{
}

/// A temporary has the next number, and both counters go on by one.
pub proof fn law_temporaries_are_numbered(s: Lowering)
    requires
        0 <= s.builder.next_var <= u32::MAX,
    ensures
        s.tmp().0 == s.builder.next_var,
        s.after_tmp().builder.next_var == s.builder.next_var + 1,
        s.after_tmp().tmp_counter == s.tmp_counter + 1,
        s.after_tmp().builder.program == s.builder.program,
        s.after_tmp().var_map == s.var_map,
{
}

/// At the start nothing is mapped, placed or emitted, and all slots are vacant.
pub proof fn law_start_of_lowering(name: Seq<char>, version: Seq<char>)
    ensures
        ({
            let s = Lowering::new(name, version);
            &&& s.var_map.len() == 0
            &&& s.buffer_slots.len() == 0
            &&& s.tmp_counter == 0
            &&& s.depth == 0
            &&& s.floor == 224
            &&& s.room
            &&& s.builder.program.name == name
            &&& s.builder.program.version == version
            &&& s.builder.program.slot_map.len() == 0
            &&& s.builder.next_var == 1000
        }),
{
}

/// The slot of the first buffer that records a variable.
proof fn lemma_first_recorded(
    slots: Seq<(u32, u8)>,
    buffers: Seq<(u32, BufferInfo)>,
    var: VarId,
    from: int,
    i: int,
)
    requires
        table::keys_distinct(buffers),
        slots.len() == buffers.len(),
        forall|j: int|
            0 <= j < slots.len() ==> #[trigger] slots[j] == (buffers[j].0, buffers[j].1.slot_base),
        0 <= from <= i < buffers.len(),
        forall|j: int| from <= j < i ==> (#[trigger] buffers[j]).1.var != var,
        buffers[i].1.var == var,
    ensures
        recorded_slot(slots, buffers, var, from) == Some(buffers[i].1.slot_base),
    decreases i - from,
{
    table::lemma_place_of_distinct(buffers, from);
    assert(slots[from].0 == buffers[from].0);
    assert(records(buffers, slots[from].0, var) == (buffers[from].1.var == var));
    if from < i {
        lemma_first_recorded(slots, buffers, var, from + 1, i);
    }
}

/// Of several buffers that record a variable, the first one has its history: a look
/// back begins in the slot of its head.
pub proof fn law_first_buffer_has_the_history(module: CirModule, var: VarId, i: int)
    requires
        lower_all(module).0.fits(),
        table::keys_distinct(module.symbol_table.buffers@),
        0 <= i < module.symbol_table.buffers@.len(),
        forall|j: int| 0 <= j < i ==> (#[trigger] module.symbol_table.buffers@[j]).1.var != var,
        module.symbol_table.buffers@[i].1.var == var,
    ensures
        prepared(module).history(module, var) == module.symbol_table.buffers@[i].1.slot_base,
        prepared(module).after_history(module, var) == prepared(module),
{
    let start = Lowering::new(module.name@, module.version@);
    let buffers = module.symbol_table.buffers@;
    lemma_module_grows(module);
    lemma_module(module);
    lemma_mapping_keeps_buffers(start, module, module.symbol_table.vars@.len());
    lemma_buffer_slots(mapped_all(module), module, buffers.len());
    assert(prepared(module).buffer_slots == placed_all(module).buffer_slots);
    lemma_first_recorded(prepared(module).buffer_slots, buffers, var, 0, i);
}

} // verus!
