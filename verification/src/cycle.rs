//! What a cycle of the constraint loop checks.

use crate::cir::CirInvariant;
use crate::cir::CirModule;
use crate::cir::VarId;
use crate::error::GuardErrorView;
use crate::layout;
use crate::lcir::ProgramView;
use crate::lcir::StmtView;
use crate::lowering;
use crate::lowering::Lowering;
use crate::lowering::Scope;
use crate::lowering::retains;
use crate::meaning::Arithmetic;
use crate::meaning::Machine;
use crate::meaning::Readings;
use crate::meaning::begins;
use crate::meaning::buffered;
use crate::meaning::covers;
use crate::meaning::declared;
use crate::meaning::holds;
use crate::meaning::in_buffer;
use crate::meaning::in_part;
use crate::meaning::keeps;
use crate::meaning::keeps_slots;
use crate::meaning::leave;
use crate::meaning::lemma_branch;
use crate::meaning::lemma_covers_split;
use crate::meaning::lemma_map_unchanged;
use crate::meaning::lemma_perform;
use crate::meaning::lemma_run_adds;
use crate::meaning::lemma_slot_in_program;
use crate::meaning::lemma_still_holds;
use crate::meaning::lemma_value;
use crate::meaning::positioned;
use crate::meaning::readable;
use crate::meaning::run;
use crate::meaning::sample_slot;
use crate::meaning::value;
use crate::table;
use vstd::prelude::*;

verus! {

/// Whether an invariant is to be checked: its guard holds, or it has none.
pub open spec fn applies<V>(
    m: Arithmetic<V>,
    module: CirModule,
    r: Readings<V>,
    inv: CirInvariant,
) -> bool {
    match inv.when {
        Some(when) => (m.truth)(value(m, module, r, Scope::top(), when)),
        None => true,
    }
}

/// What the check of an invariant finds.
pub open spec fn finding<V>(
    m: Arithmetic<V>,
    module: CirModule,
    r: Readings<V>,
    inv: CirInvariant,
) -> Seq<(Seq<char>, V)> {
    if applies(m, module, r, inv) {
        seq![(inv.name@, value(m, module, r, Scope::top(), inv.ensure))]
    } else {
        Seq::empty()
    }
}

/// What the checks of the first `n` invariants find.
pub open spec fn findings<V>(
    m: Arithmetic<V>,
    module: CirModule,
    r: Readings<V>,
    n: nat,
) -> Seq<(Seq<char>, V)>
    decreases n,
{
    if n == 0 {
        Seq::empty()
    } else {
        findings(m, module, r, (n - 1) as nat) + finding(
            m,
            module,
            r,
            module.invariants@[n - 1],
        )
    }
}

/// The expressions of the invariant can be read.
pub open spec fn checkable(module: CirModule, inv: CirInvariant) -> bool {
    &&& inv.when matches Some(when) ==> readable(module, Scope::top(), when)
    &&& readable(module, Scope::top(), inv.ensure)
}

/// The blocks of a check in a program that holds its code.
#[verifier::rlimit(30)]
proof fn lemma_check_blocks(
    s: Lowering,
    module: CirModule,
    inv: CirInvariant,
    p: ProgramView,
    s1: Lowering,
    c: Option<VarId>,
    s2: Lowering,
    v: VarId,
)
    requires
        s.sound(),
        lowering::guard(s, module, inv) == (s1, Ok::<Option<VarId>, GuardErrorView>(c)),
        lowering::lower(
            s1.at(s.depth).open_check(inv.name@, c),
            module,
            Scope::top(),
            inv.ensure,
        ) == (s2, Ok::<VarId, GuardErrorView>(v)),
        lowering::lower_check(s, module, inv).0.fits(),
        covers(s, lowering::lower_check(s, module, inv).0, p),
    ensures
        ({
            let opened = s1.at(s.depth).open_check(inv.name@, c);
            let end = s2.close_check(inv, v, s1.block_ahead(1)).at(s.depth);
            let (at1, at2) = (
                s1.builder.current_block.0 as int,
                s2.builder.current_block.0 as int,
            );
            &&& s1.sound() && opened.sound() && s2.sound() && end.sound()
            &&& s1.fits() && opened.fits() && s2.fits()
            &&& s.leads_to(s1) && s.leads_to(opened) && opened.leads_to(s2)
            &&& s.leads_to(end)
            &&& s2.holds_result(v)
            &&& c matches Some(c) ==> s1.holds_result(c)
            &&& covers(s, s1, p)
            &&& p.blocks[at1] == opened.builder.program.blocks[at1]
            &&& covers(opened, s2, p)
            &&& p.blocks[at2] == end.builder.program.blocks[at2]
            &&& opened.builder.current().stmts.len() == 0
            &&& end.builder.current().stmts.len() == 0
            &&& s1.block_ahead(0).0 == s1.builder.next_block
            &&& s1.block_ahead(1).0 == s1.builder.next_block + 1
        }),
{
    let next = s1.block_ahead(1);
    let s0 = s1.at(s.depth);
    let opened = s0.open_check(inv.name@, c);
    let closed = s2.close_check(inv, v, next);
    let end = closed.at(s.depth);
    assert(lowering::lower_check(s, module, inv).0 == end);
    lowering::lemma_check(s, module, inv);
    lowering::lemma_check_grows(s, module, inv);
    lowering::lemma_lower_grows(opened, module, Scope::top(), inv.ensure);
    if let Some(when) = inv.when {
        lowering::lemma_lower(s, module, Scope::top(), when);
    }
    lowering::lemma_at(s1, s.depth);
    lowering::lemma_leads_to_transitive(s, s1, s0);
    lowering::lemma_open_check(s0, inv.name@, c);
    lowering::lemma_leads_to_transitive(s, s0, opened);
    lowering::lemma_lower(opened, module, Scope::top(), inv.ensure);
    let (b, b1, bo, b2, b3) = (
        s.builder.program.blocks,
        s1.builder.program.blocks,
        opened.builder.program.blocks,
        s2.builder.program.blocks,
        end.builder.program.blocks,
    );
    let (at1, at2) = (s1.builder.current_block.0 as int, s2.builder.current_block.0 as int);
    assert forall|i: int| 0 <= i < b1.len() implies #[trigger] b3[i] == bo[i] by {
        assert(b2[i] == bo[i]);
    }
    assert(b2[next.0 as int] == bo[next.0 as int]);
    assert(covers(s, s1, p)) by {
        assert forall|i: int|
            i == s.builder.current_block.0 || b.len() <= i < b1.len() implies in_part(
            b1[i],
            #[trigger] p.blocks[i],
            i == at1,
        ) by {
            assert(in_part(b3[i], p.blocks[i], i == end.builder.current_block.0));
            assert(b3[i] == bo[i]);
        }
    }
    assert(covers(opened, s2, p)) by {
        assert forall|i: int|
            i == opened.builder.current_block.0 || bo.len() <= i < b2.len() implies in_part(
            b2[i],
            #[trigger] p.blocks[i],
            i == at2,
        ) by {
            assert(in_part(b3[i], p.blocks[i], i == end.builder.current_block.0));
        }
    }
    assert(in_part(b3[at1], p.blocks[at1], at1 == end.builder.current_block.0));
    assert(in_part(b3[at2], p.blocks[at2], at2 == end.builder.current_block.0));
}

/// The way to a check: the machine arrives where the check begins, or past it.
proof fn lemma_way_runs<V>(
    s: Lowering,
    module: CirModule,
    inv: CirInvariant,
    p: ProgramView,
    m: Arithmetic<V>,
    r: Readings<V>,
    k: Machine<V>,
    s1: Lowering,
    c: Option<VarId>,
) -> (n: nat)
    requires
        begins(s, module, k, r),
        checkable(module, inv),
        lowering::guard(s, module, inv) == (s1, Ok::<Option<VarId>, GuardErrorView>(c)),
        s1.fits(),
        s1.sound(),
        s.leads_to(s1),
        c matches Some(c) ==> s1.holds_result(c),
        covers(s, s1, p),
        ({
            let opened = s1.at(s.depth).open_check(inv.name@, c);
            let at1 = s1.builder.current_block.0 as int;
            &&& p.blocks[at1] == opened.builder.program.blocks[at1]
            &&& s1.block_ahead(0).0 == s1.builder.next_block
            &&& s1.block_ahead(1).0 == s1.builder.next_block + 1
        }),
    ensures
        ({
            let end = run(p, m, k, n);
            &&& end.at == 0
            &&& end.block == (if applies(m, module, r, inv) {
                s1.builder.next_block
            } else {
                s1.builder.next_block + 1
            })
            &&& keeps(s, k, end)
            &&& s1.var_map == s.var_map
        }),
{
    match inv.when {
        Some(when) => {
            let n = lemma_value(s, module, Scope::top(), when, p, m, r, k);
            let mid = run(p, m, k, n);
            lemma_map_unchanged(s, module, Scope::top(), when);
            lemma_slot_in_program(s1, p, c->0);
            lemma_branch(s1, p, m, mid);
            lemma_run_adds(p, m, k, n, 1);
            n + 1
        },
        None => {
            lemma_branch(s, p, m, k);
            1
        },
    }
}

/// The code of a check finds what the invariant says.
#[verifier::rlimit(50)]
#[verifier::spinoff_prover]
proof fn lemma_check_runs<V>(
    s: Lowering,
    module: CirModule,
    inv: CirInvariant,
    p: ProgramView,
    m: Arithmetic<V>,
    r: Readings<V>,
    k: Machine<V>,
) -> (n: nat)
    requires
        begins(s, module, k, r),
        checkable(module, inv),
        lowering::lower_check(s, module, inv).0.fits(),
        lowering::lower_check(s, module, inv).1 is Ok,
        covers(s, lowering::lower_check(s, module, inv).0, p),
    ensures
        ({
            let t = lowering::lower_check(s, module, inv).0;
            let end = run(p, m, k, n);
            &&& begins(t, module, end, r)
            &&& t.depth == s.depth
            &&& keeps_slots(s, k, end)
            &&& end.stack == k.stack
            &&& end.checks == k.checks + finding(m, module, r, inv)
        }),
{
    let (s1, r1) = lowering::guard(s, module, inv);
    let c = r1->Ok_0;
    let next = s1.block_ahead(1);
    let opened = s1.at(s.depth).open_check(inv.name@, c);
    let (s2, r2) = lowering::lower(opened, module, Scope::top(), inv.ensure);
    let v = r2->Ok_0;
    let t = s2.close_check(inv, v, next).at(s.depth);
    assert(lowering::lower_check(s, module, inv).0 == t);
    lemma_check_blocks(s, module, inv, p, s1, c, s2, v);
    let n1 = lemma_way_runs(s, module, inv, p, m, r, k, s1, c);
    let k1 = run(p, m, k, n1);
    lemma_map_unchanged(opened, module, Scope::top(), inv.ensure);
    let n: nat = if applies(m, module, r, inv) {
        lemma_still_holds(s, opened, module, k, k1, r);
        let n2 = lemma_value(opened, module, Scope::top(), inv.ensure, p, m, r, k1);
        let k2 = run(p, m, k1, n2);
        let stmt = StmtView::Assert {
            cond: v,
            invariant_name: inv.name@,
            span: inv.source_span@,
        };
        lemma_slot_in_program(s2, p, v);
        lemma_perform(s2, stmt, p, m, k2);
        lemma_branch(s2.emit(stmt), p, m, run(p, m, k2, 1));
        lemma_run_adds(p, m, k2, 1, 1);
        lemma_run_adds(p, m, k1, n2, 2);
        lemma_run_adds(p, m, k, n1, n2 + 2);
        let end = run(p, m, k, n1 + (n2 + 2));
        assert(end.checks =~= k.checks + finding(m, module, r, inv));
        assert forall|i: u8| s.wants(i) implies #[trigger] end.slots[i]
            == k.slots[i] by {
            assert(k2.slots[i] == k1.slots[i]);
            assert(k1.slots[i] == k.slots[i]);
        }
        n1 + (n2 + 2)
    } else {
        assert(k1.checks =~= k.checks + finding(m, module, r, inv));
        n1
    };
    let end = run(p, m, k, n);
    assert(positioned(end, t));
    lemma_still_holds(s, t, module, k, end, r);
    n
}

/// The code of the checks finds what the invariants say.
#[verifier::rlimit(30)]
proof fn lemma_checks_run<V>(
    s: Lowering,
    module: CirModule,
    count: nat,
    p: ProgramView,
    m: Arithmetic<V>,
    r: Readings<V>,
    k: Machine<V>,
) -> (n: nat)
    requires
        begins(s, module, k, r),
        count <= module.invariants@.len(),
        forall|i: int| 0 <= i < count ==> checkable(module, #[trigger] module.invariants@[i]),
        lowering::lower_checks(s, module, module.invariants@, count).0.fits(),
        lowering::lower_checks(s, module, module.invariants@, count).1 is Ok,
        covers(s, lowering::lower_checks(s, module, module.invariants@, count).0, p),
    ensures
        ({
            let t = lowering::lower_checks(s, module, module.invariants@, count).0;
            let end = run(p, m, k, n);
            &&& begins(t, module, end, r)
            &&& t.depth == s.depth
            &&& keeps_slots(s, k, end)
            &&& end.stack == k.stack
            &&& end.checks == k.checks + findings(m, module, r, count)
        }),
    decreases count,
{
    let invariants = module.invariants@;
    if count == 0 {
        assert(k.checks + findings(m, module, r, 0) =~= k.checks);
        0
    } else {
        let last = (count - 1) as nat;
        let s1 = lowering::lower_checks(s, module, invariants, last).0;
        let t = lowering::lower_checks(s, module, invariants, count).0;
        lowering::lemma_checks_grow(s, module, invariants, last, count);
        lowering::lemma_checks(s, module, invariants, last);
        lowering::lemma_check(s1, module, invariants[count - 1]);
        lemma_covers_split(s, s1, t, p);
        let n1 = lemma_checks_run(s, module, last, p, m, r, k);
        let mid = run(p, m, k, n1);
        let n2 = lemma_check_runs(s1, module, invariants[count - 1], p, m, r, mid);
        lemma_run_adds(p, m, k, n1, n2);
        let end = run(p, m, k, n1 + n2);
        assert(end.checks =~= k.checks + findings(m, module, r, count));
        assert forall|i: u8| s.wants(i) implies #[trigger] end.slots[i]
            == k.slots[i] by {
            assert(mid.slots[i] == k.slots[i]);
        }
        n1 + n2
    }
}

/// Mapping the first `n` variables of the symbol table maps them.
proof fn lemma_mapped(module: CirModule, s: Lowering, n: nat)
    requires
        lowering::in_entry(s),
        n <= module.symbol_table.vars@.len(),
        lowering::map_all(s, module, n).fits(),
    ensures
        forall|i: int|
            0 <= i < n ==> table::lookup(
                lowering::map_all(s, module, n).var_map,
                (#[trigger] module.symbol_table.vars@[i]).0,
            ) is Some,
        lowering::map_all(s, module, n).builder.program.blocks == s.builder.program.blocks,
    decreases n,
{
    let vars = module.symbol_table.vars@;
    if n > 0 {
        let last = (n - 1) as nat;
        let b = lowering::map_all(s, module, last);
        let t = lowering::map_all(s, module, n);
        let id = vars[n - 1].0;
        lowering::lemma_preparation_grows(s, module, last, n);
        lowering::lemma_preparation(s, module, last);
        lemma_mapped(module, s, last);
        lowering::lemma_map(b, module, VarId(id));
        assert forall|i: int| 0 <= i < n implies table::lookup(
            t.var_map,
            (#[trigger] vars[i]).0,
        ) is Some by {
            if i < last {
                table::lemma_lookup_prefix(b.var_map, t.var_map, vars[i].0);
            }
        }
    }
}

/// Placing the buffers adds nothing else.
proof fn lemma_buffers_only(s: Lowering, module: CirModule, n: nat)
    ensures
        lowering::place_buffers(s, module, n).builder == s.builder,
        lowering::place_buffers(s, module, n).var_map == s.var_map,
    decreases n,
{
    if n > 0 {
        lemma_buffers_only(s, module, (n - 1) as nat);
    }
}

/// The statement stores a variable in its own slot.
pub open spec fn stores_itself(map: Seq<(u32, u8)>, stmt: StmtView) -> bool {
    stmt matches StmtView::Store { src, slot, span } && table::lookup(map, src.0) == Some(slot)
}

/// Every statement stores a variable in its own slot.
pub open spec fn only_stores(map: Seq<(u32, u8)>, stmts: Seq<StmtView>) -> bool {
    forall|i: int| 0 <= i < stmts.len() ==> stores_itself(map, #[trigger] stmts[i])
}

/// Storing the constants adds stores only.
proof fn lemma_constants_placed(module: CirModule, s: Lowering, n: nat)
    requires
        lowering::in_entry(s),
        only_stores(s.builder.program.slot_map, s.builder.program.blocks[0].stmts),
        lowering::place_constants(s, module, n).fits(),
    ensures
        ({
            let t = lowering::place_constants(s, module, n);
            only_stores(t.builder.program.slot_map, t.builder.program.blocks[0].stmts)
        }),
    decreases n,
{
    if n > 0 {
        let vars = module.symbol_table.vars@;
        let last = (n - 1) as nat;
        let b = lowering::place_constants(s, module, last);
        let t = lowering::place_constants(s, module, n);
        lowering::lemma_preparation_grows(s, module, last, n);
        lemma_constants_placed(module, s, last);
        lowering::lemma_preparation(s, module, last);
        if vars[n - 1].1.kind is Constant {
            let var = VarId(vars[n - 1].0);
            let later = b.after_map(module, var);
            lowering::lemma_map(b, module, var);
            let (old, new) = (b.builder.program.slot_map, t.builder.program.slot_map);
            let (before, stmts) = (
                b.builder.program.blocks[0].stmts,
                t.builder.program.blocks[0].stmts,
            );
            assert(later.builder.program.blocks == b.builder.program.blocks);
            assert forall|i: int| 0 <= i < stmts.len() implies stores_itself(
                new,
                #[trigger] stmts[i],
            ) by {
                if i < before.len() {
                    assert(stores_itself(old, before[i]));
                    table::lemma_lookup_prefix(old, new, before[i]->Store_src.0);
                }
            }
        }
    }
}

/// The history buffers keep to the slots that are documented for them, and have
/// distinct identifiers.
pub open spec fn buffers_in_place(module: CirModule) -> bool {
    let buffers = module.symbol_table.buffers@;
    &&& table::keys_distinct(buffers)
    &&& forall|i: int|
        0 <= i < buffers.len() ==> {
            &&& 128 <= (#[trigger] buffers[i]).1.slot_base
            &&& buffers[i].1.slot_base + buffers[i].1.depth <= 223
        }
}

/// A variable of which samples are retained has a buffer.
proof fn lemma_retained(buffers: Seq<(u32, crate::cir::BufferInfo)>, var: VarId, from: int)
    requires
        0 <= from,
        lowering::retained(buffers, var, from) > 0,
    ensures
        exists|i: int| from <= i < buffers.len() && (#[trigger] buffers[i]).1.var == var,
    decreases buffers.len() - from,
{
    if buffers[from].1.var != var {
        lemma_retained(buffers, var, from + 1);
    }
}

/// When the slots are allocated and the constants stored, every declared variable
/// is mapped, the samples are in their buffers, and the code consists of stores.
proof fn lemma_prepared(module: CirModule)
    requires
        lowering::lower_all(module).0.fits(),
    ensures
        lowering::in_entry(lowering::prepared(module)),
        declared(lowering::prepared(module), module),
        buffers_in_place(module) ==> buffered(lowering::prepared(module), module),
        ({
            let b = lowering::prepared(module).builder.program;
            only_stores(b.slot_map, b.blocks[0].stmts)
        }),
{
    let (vars, buffers) = (module.symbol_table.vars@, module.symbol_table.buffers@);
    let start = Lowering::new(module.name@, module.version@);
    let (mapped, placed, s) = (
        lowering::mapped_all(module),
        lowering::placed_all(module),
        lowering::prepared(module),
    );
    lowering::lemma_module_grows(module);
    lowering::lemma_module(module);
    lemma_mapped(module, start, vars.len());
    lemma_buffers_only(mapped, module, buffers.len());
    lemma_constants_placed(module, placed, vars.len());
    assert forall|v: u32| #[trigger] table::lookup(vars, v) is Some implies table::lookup(
        s.var_map,
        v,
    ) is Some by {
        table::lemma_place_of(vars, v);
        let i = table::place_of(vars, v);
        assert(table::lookup(mapped.var_map, vars[i].0) is Some);
        table::lemma_lookup_prefix(placed.var_map, s.var_map, v);
    }
    if buffers_in_place(module) {
        assert forall|v: VarId|
            lowering::retained(buffers, v, 0) > 0 implies #[trigger] in_buffer(
            s,
            module,
            v,
        ) by {
            layout::law_history_is_in_its_buffer(module, v);
            lemma_retained(buffers, v, 0);
        }
    }
}

/// The number of the block at the head of the constraint loop.
pub open spec fn loop_head() -> int {
    1
}

/// The machine is at the head of the constraint loop and holds the readings.
pub open spec fn at_loop_head<V>(module: CirModule, k: Machine<V>, r: Readings<V>) -> bool {
    &&& k.block == loop_head()
    &&& k.at == 0
    &&& holds(lowering::prepared(module), module, k, r)
}

/// The head of the constraint loop has one statement, which leaves a trace.
pub proof fn lemma_loop_head(module: CirModule)
    requires
        lowering::lower_all(module).0.fits(),
        lowering::lower_all(module).1 is Ok,
    ensures
        ({
            let p = lowering::lower_all(module).1->Ok_0;
            &&& loop_head() < p.blocks.len()
            &&& p.blocks[loop_head()].stmts.len() == 1
            &&& p.blocks[loop_head()].stmts[0] is Trace
        }),
{
    let p = lowering::lower_all(module).1->Ok_0;
    let s = lowering::prepared(module);
    let entered = s.enter_loop();
    let count = module.invariants@.len();
    let t = lowering::lower_checks(entered, module, module.invariants@, count).0;
    lowering::lemma_module_grows(module);
    lowering::lemma_module(module);
    lowering::lemma_enter_loop(s);
    lowering::lemma_checks(entered, module, module.invariants@, count);
    assert(t.builder.program.blocks[1] == entered.builder.program.blocks[1]);
    assert(p.blocks[1] == entered.builder.program.blocks[1]);
}

/// The machine is back at the head of the loop and has checked the invariants.
pub open spec fn cycle_done<V>(
    module: CirModule,
    m: Arithmetic<V>,
    r: Readings<V>,
    k: Machine<V>,
    end: Machine<V>,
) -> bool {
    &&& at_loop_head(module, end, r)
    &&& end.stack == k.stack
    &&& end.checks == k.checks + findings(m, module, r, module.invariants@.len())
}

/// Where readings are held, they are held wherever those slots have the same
/// values.
proof fn lemma_holds_elsewhere<V>(
    s: Lowering,
    t: Lowering,
    module: CirModule,
    k: Machine<V>,
    end: Machine<V>,
    r: Readings<V>,
)
    requires
        s.sound(),
        buffered(s, module),
        holds(s, module, k, r),
        t.var_map == s.var_map,
        t.buffer_slots == s.buffer_slots,
        t.builder.program.slot_map == s.builder.program.slot_map,
        forall|i: u8| i < s.floor ==> #[trigger] end.slots[i] == k.slots[i],
    ensures
        holds(t, module, end, r),
        buffered(t, module),
{
    let buffers = module.symbol_table.buffers@;
    assert forall|v: VarId| #[trigger] table::lookup(t.var_map, v.0) is Some implies end.slots[t.slot(
        t.mapped(v),
    )] == r(v, 0) by {
        assert(table::lookup(s.var_map, v.0) is Some);
        table::lemma_place_of(s.var_map, v.0);
        assert(s.var_map[table::place_of(s.var_map, v.0)].1 == s.mapped(v));
    }
    assert forall|v: VarId| lowering::retained(buffers, v, 0) > 0 implies #[trigger] in_buffer(
        t,
        module,
        v,
    ) by {
        assert(in_buffer(s, module, v));
    }
    assert forall|v: VarId, n: nat|
        lowering::retained(buffers, v, 0) > 0 && retains(
            module,
            v,
            n,
        ) implies end.slots[#[trigger] sample_slot(t, module, v, n)] == r(v, n) by {
        assert(in_buffer(s, module, v));
        assert(t.history(module, v) == s.history(module, v));
        assert(sample_slot(t, module, v, n) == sample_slot(s, module, v, n));
    }
}

/// A cycle of the constraint loop checks exactly what the module says, whatever
/// the arithmetic is: a machine that holds the readings at the head of the loop
/// comes back to it with the readings unchanged, and on the way it has checked,
/// in the order of the module, each invariant that has no guard or whose guard
/// holds, and found the value of its constraint.
#[verifier::rlimit(50)]
#[verifier::spinoff_prover]
pub proof fn law_cycle_checks_the_invariants<V>(
    module: CirModule,
    m: Arithmetic<V>,
    r: Readings<V>,
    k: Machine<V>,
)
    requires
        lowering::lower_all(module).0.fits(),
        lowering::lower_all(module).1 is Ok,
        buffers_in_place(module),
        forall|i: int|
            0 <= i < module.invariants@.len() ==> checkable(
                module,
                #[trigger] module.invariants@[i],
            ),
        at_loop_head(module, k, r),
    ensures
        exists|n: nat|
            cycle_done(
                module,
                m,
                r,
                k,
                #[trigger] run(lowering::lower_all(module).1->Ok_0, m, k, n),
            ) && n > 0,
{
    let p = lowering::lower_all(module).1->Ok_0;
    let s = lowering::prepared(module);
    let entered = s.enter_loop();
    let count = module.invariants@.len();
    let t = lowering::lower_checks(entered, module, module.invariants@, count).0;
    lowering::lemma_module_grows(module);
    lowering::lemma_module(module);
    lowering::lemma_enter_loop(s);
    lowering::lemma_checks(entered, module, module.invariants@, count);
    lemma_prepared(module);
    // The head of the loop.
    let head = p.blocks[1];
    assert(t.builder.program.blocks[1] == entered.builder.program.blocks[1]);
    assert(head == entered.builder.program.blocks[1]);
    reveal_with_fuel(run, 3);
    let k1 = run(p, m, k, 2);
    assert(k1 == (Machine { block: 2, at: 0, ..k }));
    // The checks.
    assert(covers(entered, t, p)) by {
        let (b, c) = (entered.builder.program.blocks, t.builder.program.blocks);
        assert forall|i: int| i == 2 || b.len() <= i < c.len() implies in_part(
            c[i],
            #[trigger] p.blocks[i],
            i == t.builder.current_block.0,
        ) by {}
    }
    lemma_holds_elsewhere(s, entered, module, k, k1, r);
    assert(declared(entered, module));
    let n = lemma_checks_run(entered, module, count, p, m, r, k1);
    let k2 = run(p, m, k1, n);
    // The way back.
    lemma_branch(t, p, m, k2);
    lemma_run_adds(p, m, k1, n, 1);
    lemma_run_adds(p, m, k, 2, n + 1);
    let end = run(p, m, k, 2 + (n + 1));
    assert forall|i: u8| i < s.floor implies #[trigger] end.slots[i] == k.slots[i] by {
        assert(k2.slots[i] == k1.slots[i]);
    }
    lemma_holds_elsewhere(s, s, module, k, end, r);
    assert(cycle_done(module, m, r, k, run(p, m, k, 2 + (n + 1))));
}

/// A machine that stores variables in their own slots keeps its memory.
proof fn lemma_stores<V>(p: ProgramView, m: Arithmetic<V>, k: Machine<V>, n: nat)
    requires
        k.at == 0,
        only_stores(p.slot_map, p.blocks[k.block].stmts),
        n <= p.blocks[k.block].stmts.len(),
    ensures
        run(p, m, k, n).at == n,
        run(p, m, k, n).block == k.block,
        forall|i: u8| #[trigger] run(p, m, k, n).slots[i] == k.slots[i],
        run(p, m, k, n).stack == k.stack,
        run(p, m, k, n).checks == k.checks,
    decreases n,
{
    if n > 0 {
        lemma_stores(p, m, k, (n - 1) as nat);
        assert(stores_itself(p.slot_map, p.blocks[k.block].stmts[n - 1]));
    }
}

/// A program that is started with the readings in place arrives at the head of
/// the constraint loop with the readings still in place, and has checked
/// nothing on the way.
#[verifier::rlimit(30)]
pub proof fn law_start_leads_to_the_loop<V>(
    module: CirModule,
    m: Arithmetic<V>,
    r: Readings<V>,
    k: Machine<V>,
)
    requires
        lowering::lower_all(module).0.fits(),
        lowering::lower_all(module).1 is Ok,
        buffers_in_place(module),
        k.block == lowering::lower_all(module).1->Ok_0.entry.0,
        k.at == 0,
        holds(lowering::prepared(module), module, k, r),
    ensures
        exists|n: nat|
            started(module, r, k, #[trigger] run(lowering::lower_all(module).1->Ok_0, m, k, n)),
{
    let p = lowering::lower_all(module).1->Ok_0;
    let s = lowering::prepared(module);
    let entered = s.enter_loop();
    let count = module.invariants@.len();
    let t = lowering::lower_checks(entered, module, module.invariants@, count).0;
    lowering::lemma_module_grows(module);
    lowering::lemma_module(module);
    lowering::lemma_enter_loop(s);
    lowering::lemma_checks(entered, module, module.invariants@, count);
    lemma_prepared(module);
    assert(t.builder.program.blocks[0] == entered.builder.program.blocks[0]);
    assert(p.blocks[0] == entered.builder.program.blocks[0]);
    let stmts = p.blocks[0].stmts;
    assert(stmts == s.builder.program.blocks[0].stmts);
    assert forall|i: int| 0 <= i < stmts.len() implies stores_itself(
        p.slot_map,
        #[trigger] stmts[i],
    ) by {
        let map = s.builder.program.slot_map;
        assert(stores_itself(map, s.builder.program.blocks[0].stmts[i]));
        table::lemma_lookup_prefix(map, p.slot_map, stmts[i]->Store_src.0);
    }
    let n = stmts.len();
    lemma_stores(p, m, k, n);
    let end = run(p, m, k, n + 1);
    assert(end == leave(m, p.slot_map, run(p, m, k, n), p.blocks[0].terminator));
    assert forall|i: u8| i < s.floor implies #[trigger] end.slots[i] == k.slots[i] by {
        assert(run(p, m, k, n).slots[i] == k.slots[i]);
    }
    lemma_holds_elsewhere(s, s, module, k, end, r);
    assert(started(module, r, k, run(p, m, k, n + 1)));
}

/// The machine is at the head of the loop and has checked nothing.
pub open spec fn started<V>(
    module: CirModule,
    r: Readings<V>,
    k: Machine<V>,
    end: Machine<V>,
) -> bool {
    &&& at_loop_head(module, end, r)
    &&& end.stack == k.stack
    &&& end.checks == k.checks
}

/// The number of those among the first `n` invariants that have no guard or whose
/// guard holds.
pub open spec fn due_before<V>(
    m: Arithmetic<V>,
    module: CirModule,
    r: Readings<V>,
    n: nat,
) -> nat
    decreases n,
{
    if n == 0 {
        0
    } else {
        let inv = module.invariants@[n - 1];
        due_before(m, module, r, (n - 1) as nat) + if inv.when is None || (m.truth)(
            value(m, module, r, Scope::top(), inv.when->0),
        ) {
            1nat
        } else {
            0nat
        }
    }
}

/// The number of those that are due is the number of findings.
proof fn lemma_findings_count<V>(m: Arithmetic<V>, module: CirModule, r: Readings<V>, n: nat)
    ensures
        findings(m, module, r, n).len() == due_before(m, module, r, n),
    decreases n,
{
    if n > 0 {
        lemma_findings_count(m, module, r, (n - 1) as nat);
    }
}

/// Each invariant that has no guard or whose guard holds is found, once, in its turn:
/// under its own name and with the value of its own constraint. There are no other
/// findings.
pub proof fn law_each_invariant_in_its_turn<V>(
    m: Arithmetic<V>,
    module: CirModule,
    r: Readings<V>,
    i: nat,
    n: nat,
)
    requires
        i < n <= module.invariants@.len(),
    ensures
        findings(m, module, r, n).len() == due_before(m, module, r, n),
        ({
            let inv = module.invariants@[i as int];
            inv.when is None || (m.truth)(value(m, module, r, Scope::top(), inv.when->0)) ==> {
                let turn = due_before(m, module, r, i) as int;
                &&& 0 <= turn < findings(m, module, r, n).len()
                &&& findings(m, module, r, n)[turn] == (
                    inv.name@,
                    value(m, module, r, Scope::top(), inv.ensure),
                )
            }
        }),
    decreases n,
{
    let before = (n - 1) as nat;
    lemma_findings_count(m, module, r, n);
    lemma_findings_count(m, module, r, before);
    if i < before {
        law_each_invariant_in_its_turn(m, module, r, i, before);
    }
}

} // verus!
