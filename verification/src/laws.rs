//! Statements of the guarantees the planner gives, proved once and
//! for all over the specification-level scan that
//! [`generate`](crate::planner::generate)'s contract pins its result
//! to.

use crate::analyzer::{
    analyze_op_spec, analyze_ops_spec, conflicts_sorted, lemma_analyze_ops_unfold,
    lemma_sort_conflicts_spec, sort_conflicts_spec,
};
use crate::fs_model::{spec_is_dir, spec_node_exists, FsEntry, NodeKind};
use crate::planner::{
    emit_ops, name_in, rule_mode, scan_one_dir, spec_decompose, spec_decompose_kids, GenState,
    Module, MountMode,
};
use vstd::prelude::*;

verus! {

/// Every emitted union operation's target is, at emission time, an
/// existing directory of the snapshot, and its partition label is
/// the first component of its target.
pub proof fn lemma_emitted_targets_are_dirs(
    entries: Seq<FsEntry>,
    acc: Seq<(Seq<Seq<u8>>, Seq<(Seq<u8>, Seq<Seq<u8>>)>)>,
    i: int,
)
    ensures
        forall|k: int|
            0 <= k < emit_ops(entries, acc, i).len() ==> {
                let op = #[trigger] emit_ops(entries, acc, i)[k];
                &&& op.0.len() > 0
                &&& spec_is_dir(entries, op.0)
                &&& op.1 == op.0[0]
            },
    decreases acc.len() - i,
{
    if 0 <= i < acc.len() {
        lemma_emitted_targets_are_dirs(entries, acc, i + 1);
        if acc[i].0.len() > 0 && spec_is_dir(entries, acc[i].0) {
            assert forall|k: int|
                0 <= k < emit_ops(entries, acc, i).len() implies {
                let op = #[trigger] emit_ops(entries, acc, i)[k];
                &&& op.0.len() > 0
                &&& spec_is_dir(entries, op.0)
                &&& op.1 == op.0[0]
            } by {
                if k == 0 {
                    assert(emit_ops(entries, acc, i)[0] == (acc[i].0, acc[i].0[0], acc[i].1));
                } else {
                    assert(emit_ops(entries, acc, i)[k] == emit_ops(entries, acc, i + 1)[k - 1]);
                }
            }
        } else {
            assert(emit_ops(entries, acc, i) == emit_ops(entries, acc, i + 1));
            assert forall|k: int|
                0 <= k < emit_ops(entries, acc, i).len() implies {
                let op = #[trigger] emit_ops(entries, acc, i)[k];
                &&& op.0.len() > 0
                &&& spec_is_dir(entries, op.0)
                &&& op.1 == op.0[0]
            } by {
                assert(emit_ops(entries, acc, i)[k] == emit_ops(entries, acc, i + 1)[k]);
            }
        }
    }
}

/// A directory governed by `Fallback` mode contributes no layer to
/// the accumulator and does not mark its module as participating:
/// the scan of such a directory only records the module for the
/// per-node fallback strategy.
pub proof fn lemma_fallback_adds_no_layer(
    entries: Seq<FsEntry>,
    allowed: Seq<Seq<u8>>,
    m: Module,
    root: Seq<Seq<u8>>,
    ci: int,
    st: GenState,
)
    requires
        0 <= ci < entries.len(),
        entries[ci].path.deep_view().len() > 0,
        rule_mode(m.rules@, entries[ci].path.deep_view().last()) == MountMode::Fallback,
    ensures
        scan_one_dir(entries, allowed, m, root, ci, st).acc == st.acc,
        scan_one_dir(entries, allowed, m, root, ci, st).overlay_ids == st.overlay_ids,
{
}

/// A directory governed by `Ignore` mode changes nothing at all: no
/// layer, no participating identifier, no fallback record.
pub proof fn lemma_ignore_changes_nothing(
    entries: Seq<FsEntry>,
    allowed: Seq<Seq<u8>>,
    m: Module,
    root: Seq<Seq<u8>>,
    ci: int,
    st: GenState,
)
    requires
        0 <= ci < entries.len(),
        entries[ci].path.deep_view().len() > 0,
        rule_mode(m.rules@, entries[ci].path.deep_view().last()) == MountMode::Ignore,
    ensures
        scan_one_dir(entries, allowed, m, root, ci, st) == st,
{
}

/// A directory outside the allowed partition set changes nothing.
pub proof fn lemma_disallowed_changes_nothing(
    entries: Seq<FsEntry>,
    allowed: Seq<Seq<u8>>,
    m: Module,
    root: Seq<Seq<u8>>,
    ci: int,
    st: GenState,
)
    requires
        0 <= ci < entries.len(),
        entries[ci].path.deep_view().len() > 0,
        !name_in(allowed, entries[ci].path.deep_view().last()),
    ensures
        scan_one_dir(entries, allowed, m, root, ci, st) == st,
{
}

/// The position of the first module with the identifier `id`, or -1.
pub open spec fn module_index_of(modules: Seq<Module>, id: Seq<u8>) -> int
    decreases modules.len(),
{
    if modules.len() == 0 {
        -1
    } else if modules[0].id@ == id {
        0
    } else {
        let r = module_index_of(modules.drop_first(), id);
        if r < 0 {
            -1
        } else {
            r + 1
        }
    }
}

/// Module identifiers are pairwise distinct.
pub open spec fn distinct_ids(modules: Seq<Module>) -> bool {
    forall|i: int, j: int|
        0 <= i < j < modules.len() ==> (#[trigger] modules[i]).id@ != (#[trigger] modules[j]).id@
}

/// With distinct identifiers, each module is found at its own
/// position.
pub proof fn lemma_module_index_of_distinct(modules: Seq<Module>, k: int)
    requires
        0 <= k < modules.len(),
        forall|j: int| 0 <= j < k ==> (#[trigger] modules[j]).id@ != modules[k].id@,
    ensures
        module_index_of(modules, modules[k].id@) == k,
    decreases k,
{
    if k > 0 {
        assert forall|j: int|
            0 <= j < k - 1 implies (#[trigger] modules.drop_first()[j]).id@
            != modules.drop_first()[k - 1].id@ by {
            assert(modules.drop_first()[j] == modules[j + 1]);
            assert(modules.drop_first()[k - 1] == modules[k]);
        }
        assert(modules.drop_first()[k - 1] == modules[k]);
        lemma_module_index_of_distinct(modules.drop_first(), k - 1);
    }
}

/// The layers of one accumulator row are ordered by module
/// precedence, and every contributor stands before `bound` in the
/// module list.
pub open spec fn layers_ordered(
    layers: Seq<(Seq<u8>, Seq<Seq<u8>>)>,
    modules: Seq<Module>,
    bound: int,
) -> bool {
    &&& forall|k: int|
        0 <= k < layers.len() ==> 0 <= module_index_of(modules, (#[trigger] layers[k]).0) < bound
    &&& forall|a: int, b: int|
        0 <= a < b < layers.len() ==> module_index_of(modules, (#[trigger] layers[a]).0)
            <= module_index_of(modules, (#[trigger] layers[b]).0)
}

/// Every row of the accumulator has its layers ordered by module
/// precedence below `bound`.
pub open spec fn acc_ordered(
    acc: Seq<(Seq<Seq<u8>>, Seq<(Seq<u8>, Seq<Seq<u8>>)>)>,
    modules: Seq<Module>,
    bound: int,
) -> bool {
    forall|r: int| 0 <= r < acc.len() ==> layers_ordered((#[trigger] acc[r]).1, modules, bound)
}

/// Registering a layer of the module at position `bound - 1` keeps
/// every row ordered.
pub proof fn lemma_acc_add_ordered(
    acc: Seq<(Seq<Seq<u8>>, Seq<(Seq<u8>, Seq<Seq<u8>>)>)>,
    tgt: Seq<Seq<u8>>,
    layer: (Seq<u8>, Seq<Seq<u8>>),
    modules: Seq<Module>,
    bound: int,
)
    requires
        acc_ordered(acc, modules, bound),
        module_index_of(modules, layer.0) == bound - 1,
        bound >= 1,
    ensures
        acc_ordered(crate::planner::acc_add(acc, tgt, layer), modules, bound),
{
    let t = crate::planner::acc_add(acc, tgt, layer);
    let i = crate::planner::acc_find(acc, tgt);
    if i < 0 {
        assert forall|r: int| 0 <= r < t.len() implies layers_ordered(
            (#[trigger] t[r]).1,
            modules,
            bound,
        ) by {
            if r == acc.len() {
                assert(t[r].1 == seq![layer]);
                assert(t[r].1[0] == layer);
            } else {
                assert(t[r] == acc[r]);
            }
        }
    } else {
        crate::planner::lemma_acc_find_in_range(acc, tgt);
        assert forall|r: int| 0 <= r < t.len() implies layers_ordered(
            (#[trigger] t[r]).1,
            modules,
            bound,
        ) by {
            if r == i {
                let old_l = acc[i].1;
                let new_l = t[r].1;
                assert(new_l == old_l.push(layer));
                assert forall|k: int|
                    0 <= k < new_l.len() implies 0 <= module_index_of(
                    modules,
                    (#[trigger] new_l[k]).0,
                ) < bound by {
                    if k < old_l.len() {
                        assert(new_l[k] == old_l[k]);
                    } else {
                        assert(new_l[k] == layer);
                    }
                }
                assert forall|a: int, b: int|
                    0 <= a < b < new_l.len() implies module_index_of(
                    modules,
                    (#[trigger] new_l[a]).0,
                ) <= module_index_of(modules, (#[trigger] new_l[b]).0) by {
                    if b < old_l.len() {
                        assert(new_l[a] == old_l[a]);
                        assert(new_l[b] == old_l[b]);
                    } else {
                        assert(new_l[a] == old_l[a]);
                        assert(new_l[b] == layer);
                        assert(module_index_of(modules, old_l[a].0) < bound);
                    }
                }
            } else {
                assert(t[r] == acc[r]);
            }
        }
    }
}

/// Registering a list of layers of that module keeps the order.
pub proof fn lemma_apply_regs_ordered(
    acc: Seq<(Seq<Seq<u8>>, Seq<(Seq<u8>, Seq<Seq<u8>>)>)>,
    mid: Seq<u8>,
    regs: Seq<(Seq<Seq<u8>>, Seq<Seq<u8>>)>,
    modules: Seq<Module>,
    bound: int,
)
    requires
        acc_ordered(acc, modules, bound),
        module_index_of(modules, mid) == bound - 1,
        bound >= 1,
    ensures
        acc_ordered(crate::planner::apply_regs(acc, mid, regs), modules, bound),
    decreases regs.len(),
{
    if regs.len() > 0 {
        lemma_acc_add_ordered(acc, regs[0].0, (mid, regs[0].1), modules, bound);
        lemma_apply_regs_ordered(
            crate::planner::acc_add(acc, regs[0].0, (mid, regs[0].1)),
            mid,
            regs.drop_first(),
            modules,
            bound,
        );
    }
}

/// A smaller bound is also a bound.
pub proof fn lemma_acc_ordered_weaken(
    acc: Seq<(Seq<Seq<u8>>, Seq<(Seq<u8>, Seq<Seq<u8>>)>)>,
    modules: Seq<Module>,
    b1: int,
    b2: int,
)
    requires
        acc_ordered(acc, modules, b1),
        b1 <= b2,
    ensures
        acc_ordered(acc, modules, b2),
{
}

/// Scanning one directory of the module at position `bound - 1`
/// keeps the accumulator ordered.
pub proof fn lemma_scan_one_dir_ordered(
    entries: Seq<FsEntry>,
    allowed: Seq<Seq<u8>>,
    m: Module,
    root: Seq<Seq<u8>>,
    ci: int,
    st: GenState,
    modules: Seq<Module>,
    bound: int,
)
    requires
        acc_ordered(st.acc, modules, bound),
        module_index_of(modules, m.id@) == bound - 1,
        bound >= 1,
    ensures
        acc_ordered(scan_one_dir(entries, allowed, m, root, ci, st).acc, modules, bound),
{
    if 0 <= ci < entries.len() && entries[ci].kind is Dir && entries[
        ci
    ].path.deep_view().len() > 0 {
        let nm = entries[ci].path.deep_view().last();
        if name_in(allowed, nm) {
            match rule_mode(m.rules@, nm) {
                MountMode::Union => {
                    lemma_apply_regs_ordered(
                        st.acc,
                        m.id@,
                        crate::planner::spec_decompose(
                            entries,
                            root.push(nm),
                            seq![nm],
                            crate::planner::DEPTH_FUEL as nat,
                        ),
                        modules,
                        bound,
                    );
                },
                _ => {},
            }
        }
    }
}

/// Scanning a list of directories of that module keeps the order.
pub proof fn lemma_scan_dirs_ordered(
    entries: Seq<FsEntry>,
    allowed: Seq<Seq<u8>>,
    m: Module,
    root: Seq<Seq<u8>>,
    kids: Seq<int>,
    st: GenState,
    modules: Seq<Module>,
    bound: int,
)
    requires
        acc_ordered(st.acc, modules, bound),
        module_index_of(modules, m.id@) == bound - 1,
        bound >= 1,
    ensures
        acc_ordered(
            crate::planner::scan_dirs(entries, allowed, m, root, kids, st).acc,
            modules,
            bound,
        ),
    decreases kids.len(),
{
    if kids.len() > 0 {
        lemma_scan_one_dir_ordered(entries, allowed, m, root, kids[0], st, modules, bound);
        lemma_scan_dirs_ordered(
            entries,
            allowed,
            m,
            root,
            kids.drop_first(),
            scan_one_dir(entries, allowed, m, root, kids[0], st),
            modules,
            bound,
        );
    }
}

/// After scanning the first `i` modules, every accumulator row is
/// ordered by module precedence below `i`.
pub proof fn lemma_scan_modules_ordered(
    entries: Seq<FsEntry>,
    allowed: Seq<Seq<u8>>,
    storage_root: Seq<Seq<u8>>,
    modules: Seq<Module>,
    i: int,
)
    requires
        distinct_ids(modules),
        i <= modules.len(),
    ensures
        acc_ordered(
            crate::planner::scan_modules(entries, allowed, storage_root, modules, i).acc,
            modules,
            i,
        ),
    decreases i,
{
    if i <= 0 {
        assert(crate::planner::scan_modules(entries, allowed, storage_root, modules, i).acc
            =~= Seq::<(Seq<Seq<u8>>, Seq<(Seq<u8>, Seq<Seq<u8>>)>)>::empty());
    } else {
        lemma_scan_modules_ordered(entries, allowed, storage_root, modules, i - 1);
        let prev = crate::planner::scan_modules(entries, allowed, storage_root, modules, i - 1);
        lemma_acc_ordered_weaken(prev.acc, modules, i - 1, i);
        lemma_module_index_of_distinct(modules, i - 1);
        match crate::planner::effective_root(entries, storage_root, modules[i - 1]) {
            None => {},
            Some(root) => {
                lemma_scan_dirs_ordered(
                    entries,
                    allowed,
                    modules[i - 1],
                    root,
                    crate::fs_model::child_indices_from(entries, root, 0),
                    prev,
                    modules,
                    i,
                );
            },
        }
    }
}

/// Layer precedence: in every union operation that the planner
/// emits for a module list with distinct identifiers, the layers are
/// ordered by module precedence — a higher-precedence (earlier)
/// module's layer always comes before a lower-precedence one's on
/// the same target — and every layer belongs to a listed module.
pub proof fn lemma_layer_precedence(
    entries: Seq<FsEntry>,
    allowed: Seq<Seq<u8>>,
    storage_root: Seq<Seq<u8>>,
    modules: Seq<Module>,
)
    requires
        distinct_ids(modules),
    ensures
        ({
            let st = crate::planner::scan_modules(
                entries,
                allowed,
                storage_root,
                modules,
                modules.len() as int,
            );
            let ops = emit_ops(entries, st.acc, 0);
            forall|k: int|
                0 <= k < ops.len() ==> layers_ordered(
                    (#[trigger] ops[k]).2,
                    modules,
                    modules.len() as int,
                )
        }),
{
    let st = crate::planner::scan_modules(
        entries,
        allowed,
        storage_root,
        modules,
        modules.len() as int,
    );
    lemma_scan_modules_ordered(entries, allowed, storage_root, modules, modules.len() as int);
    lemma_emit_ops_layers(entries, st.acc, 0, modules, modules.len() as int);
}

/// Every emitted operation carries the layer list of one
/// accumulator row, so row order carries over to the plan.
pub proof fn lemma_emit_ops_layers(
    entries: Seq<FsEntry>,
    acc: Seq<(Seq<Seq<u8>>, Seq<(Seq<u8>, Seq<Seq<u8>>)>)>,
    i: int,
    modules: Seq<Module>,
    bound: int,
)
    requires
        acc_ordered(acc, modules, bound),
    ensures
        forall|k: int|
            0 <= k < emit_ops(entries, acc, i).len() ==> layers_ordered(
                (#[trigger] emit_ops(entries, acc, i)[k]).2,
                modules,
                bound,
            ),
    decreases acc.len() - i,
{
    if 0 <= i < acc.len() {
        lemma_emit_ops_layers(entries, acc, i + 1, modules, bound);
        if acc[i].0.len() > 0 && spec_is_dir(entries, acc[i].0) {
            assert forall|k: int|
                0 <= k < emit_ops(entries, acc, i).len() implies layers_ordered(
                (#[trigger] emit_ops(entries, acc, i)[k]).2,
                modules,
                bound,
            ) by {
                if k == 0 {
                    assert(emit_ops(entries, acc, i)[0] == (acc[i].0, acc[i].0[0], acc[i].1));
                } else {
                    assert(emit_ops(entries, acc, i)[k] == emit_ops(entries, acc, i + 1)[k - 1]);
                }
            }
        } else {
            assert(emit_ops(entries, acc, i) == emit_ops(entries, acc, i + 1));
            assert forall|k: int|
                0 <= k < emit_ops(entries, acc, i).len() implies layers_ordered(
                (#[trigger] emit_ops(entries, acc, i)[k]).2,
                modules,
                bound,
            ) by {
                assert(emit_ops(entries, acc, i)[k] == emit_ops(entries, acc, i + 1)[k]);
            }
        }
    }
}

/// Analyzing from position `i` is analyzing the remaining
/// operations from the start.
pub proof fn lemma_analyze_ops_shift(
    entries: Seq<FsEntry>,
    ops: Seq<(Seq<Seq<u8>>, Seq<u8>, Seq<(Seq<u8>, Seq<Seq<u8>>)>)>,
    i: int,
)
    requires
        0 <= i <= ops.len(),
    ensures
        analyze_ops_spec(entries, ops, i).0 == analyze_ops_spec(entries, ops.skip(i), 0).0,
        analyze_ops_spec(entries, ops, i).1 == analyze_ops_spec(entries, ops.skip(i), 0).1,
    decreases ops.len() - i,
{
    if i == ops.len() {
        assert(ops.skip(i).len() == 0);
    } else {
        lemma_analyze_ops_unfold(entries, ops, i);
        let tail = ops.skip(i);
        lemma_analyze_ops_unfold(entries, tail, 0);
        assert(tail[0] == ops[i]);
        lemma_analyze_ops_shift(entries, tail, 1);
        assert(tail.skip(1) =~= ops.skip(i + 1));
        lemma_analyze_ops_shift(entries, ops, i + 1);
    }
}

/// The analysis of a nonempty operation list splits into its first
/// operation and the rest.
pub proof fn lemma_analyze_ops_cons(
    entries: Seq<FsEntry>,
    ops: Seq<(Seq<Seq<u8>>, Seq<u8>, Seq<(Seq<u8>, Seq<Seq<u8>>)>)>,
)
    requires
        ops.len() > 0,
    ensures
        analyze_ops_spec(entries, ops, 0).0 == analyze_op_spec(entries, ops[0]).0
            + analyze_ops_spec(entries, ops.drop_first(), 0).0,
        analyze_ops_spec(entries, ops, 0).1 == analyze_op_spec(entries, ops[0]).1
            + analyze_ops_spec(entries, ops.drop_first(), 0).1,
{
    lemma_analyze_ops_unfold(entries, ops, 0);
    lemma_analyze_ops_shift(entries, ops, 1);
    assert(ops.skip(1) =~= ops.drop_first());
}

/// Removing one operation takes exactly its findings out of the
/// concatenated analysis, as multisets.
pub proof fn lemma_analyze_ops_remove(
    entries: Seq<FsEntry>,
    ops: Seq<(Seq<Seq<u8>>, Seq<u8>, Seq<(Seq<u8>, Seq<Seq<u8>>)>)>,
    j: int,
)
    requires
        0 <= j < ops.len(),
    ensures
        analyze_ops_spec(entries, ops, 0).0.to_multiset() == analyze_op_spec(
            entries,
            ops[j],
        ).0.to_multiset().add(analyze_ops_spec(entries, ops.remove(j), 0).0.to_multiset()),
        analyze_ops_spec(entries, ops, 0).1.to_multiset() == analyze_op_spec(
            entries,
            ops[j],
        ).1.to_multiset().add(analyze_ops_spec(entries, ops.remove(j), 0).1.to_multiset()),
    decreases j,
{
    lemma_analyze_ops_cons(entries, ops);
    vstd::seq_lib::lemma_multiset_commutative(
        analyze_op_spec(entries, ops[0]).0,
        analyze_ops_spec(entries, ops.drop_first(), 0).0,
    );
    vstd::seq_lib::lemma_multiset_commutative(
        analyze_op_spec(entries, ops[0]).1,
        analyze_ops_spec(entries, ops.drop_first(), 0).1,
    );
    if j == 0 {
        assert(ops.remove(0) =~= ops.drop_first());
    } else {
        let tail = ops.drop_first();
        assert(tail[j - 1] == ops[j]);
        lemma_analyze_ops_remove(entries, tail, j - 1);
        let rem = ops.remove(j);
        assert(rem[0] == ops[0]);
        assert(rem.drop_first() =~= tail.remove(j - 1));
        lemma_analyze_ops_cons(entries, rem);
        vstd::seq_lib::lemma_multiset_commutative(
            analyze_op_spec(entries, rem[0]).0,
            analyze_ops_spec(entries, rem.drop_first(), 0).0,
        );
        vstd::seq_lib::lemma_multiset_commutative(
            analyze_op_spec(entries, rem[0]).1,
            analyze_ops_spec(entries, rem.drop_first(), 0).1,
        );
        assert(analyze_ops_spec(entries, ops, 0).0.to_multiset() =~= analyze_op_spec(
            entries,
            ops[j],
        ).0.to_multiset().add(analyze_ops_spec(entries, ops.remove(j), 0).0.to_multiset()));
        assert(analyze_ops_spec(entries, ops, 0).1.to_multiset() =~= analyze_op_spec(
            entries,
            ops[j],
        ).1.to_multiset().add(analyze_ops_spec(entries, ops.remove(j), 0).1.to_multiset()));
    }
}

/// The analyzer's findings do not depend on the order of the
/// operations in the plan: two plans holding the same operations, in
/// any order, give the same conflicts and the same diagnostics as
/// multisets. Only the final sort of the conflict list imposes an
/// order.
pub proof fn lemma_analysis_order_independent(
    entries: Seq<FsEntry>,
    ops1: Seq<(Seq<Seq<u8>>, Seq<u8>, Seq<(Seq<u8>, Seq<Seq<u8>>)>)>,
    ops2: Seq<(Seq<Seq<u8>>, Seq<u8>, Seq<(Seq<u8>, Seq<Seq<u8>>)>)>,
)
    requires
        ops1.to_multiset() == ops2.to_multiset(),
    ensures
        analyze_ops_spec(entries, ops1, 0).0.to_multiset() == analyze_ops_spec(
            entries,
            ops2,
            0,
        ).0.to_multiset(),
        analyze_ops_spec(entries, ops1, 0).1.to_multiset() == analyze_ops_spec(
            entries,
            ops2,
            0,
        ).1.to_multiset(),
    decreases ops1.len(),
{
    broadcast use vstd::seq_lib::group_to_multiset_ensures;

    if ops1.len() == 0 {
        ops1.to_multiset_ensures();
        ops2.to_multiset_ensures();
        assert(ops2.len() == 0);
    } else {
        let x = ops1[0];
        assert(ops1.contains(x));
        assert(ops1.to_multiset().count(x) > 0);
        assert(ops2.to_multiset().count(x) > 0);
        assert(ops2.contains(x));
        let j = choose|j: int| 0 <= j < ops2.len() && ops2[j] == x;
        lemma_analyze_ops_remove(entries, ops2, j);
        lemma_analyze_ops_cons(entries, ops1);
        vstd::seq_lib::lemma_multiset_commutative(
            analyze_op_spec(entries, x).0,
            analyze_ops_spec(entries, ops1.drop_first(), 0).0,
        );
        vstd::seq_lib::lemma_multiset_commutative(
            analyze_op_spec(entries, x).1,
            analyze_ops_spec(entries, ops1.drop_first(), 0).1,
        );
        assert(ops1.remove(0) =~= ops1.drop_first());
        assert(ops1.drop_first().to_multiset() == ops1.to_multiset().remove(x));
        assert(ops2.remove(j).to_multiset() == ops2.to_multiset().remove(x));
        lemma_analysis_order_independent(entries, ops1.drop_first(), ops2.remove(j));
    }
}

/// The sorted conflict lists of two order-permuted plans hold the
/// same entries, and both are sorted by partition and relative path.
pub proof fn lemma_sorted_conflicts_order_independent(
    entries: Seq<FsEntry>,
    ops1: Seq<(Seq<Seq<u8>>, Seq<u8>, Seq<(Seq<u8>, Seq<Seq<u8>>)>)>,
    ops2: Seq<(Seq<Seq<u8>>, Seq<u8>, Seq<(Seq<u8>, Seq<Seq<u8>>)>)>,
)
    requires
        ops1.to_multiset() == ops2.to_multiset(),
    ensures
        sort_conflicts_spec(analyze_ops_spec(entries, ops1, 0).0).to_multiset()
            == sort_conflicts_spec(analyze_ops_spec(entries, ops2, 0).0).to_multiset(),
        conflicts_sorted(sort_conflicts_spec(analyze_ops_spec(entries, ops1, 0).0)),
        conflicts_sorted(sort_conflicts_spec(analyze_ops_spec(entries, ops2, 0).0)),
{
    lemma_analysis_order_independent(entries, ops1, ops2);
    lemma_sort_conflicts_spec(analyze_ops_spec(entries, ops1, 0).0);
    lemma_sort_conflicts_spec(analyze_ops_spec(entries, ops2, 0).0);
}

/// Decomposition never escapes its seed: every registered layer
/// source lies inside the source directory of the item that was
/// queued, and each decomposition step descends exactly one level of
/// the module tree (the recursion in `spec_decompose_kids` pushes one
/// component onto both the source and the target), so decomposition
/// exhausts any finite tree; the depth budget bounds it besides.
pub proof fn lemma_decompose_sources_extend(
    entries: Seq<FsEntry>,
    msrc: Seq<Seq<u8>>,
    tgt: Seq<Seq<u8>>,
    fuel: nat,
)
    ensures
        forall|k: int|
            0 <= k < spec_decompose(entries, msrc, tgt, fuel).len() ==> {
                let src = (#[trigger] spec_decompose(entries, msrc, tgt, fuel)[k]).1;
                src.len() >= msrc.len() && src.take(msrc.len() as int) == msrc
            },
    decreases fuel, 0nat, 0nat,
{
    if spec_node_exists(entries, tgt) {
        match crate::fs_model::spec_canonical(entries, tgt) {
            None => {},
            Some(canon) => {
                if crate::planner::spec_needs_split(canon) {
                    if fuel > 0 {
                        lemma_decompose_kids_sources_extend(
                            entries,
                            msrc,
                            canon,
                            crate::fs_model::child_indices_from(entries, msrc, 0),
                            (fuel - 1) as nat,
                        );
                        let res = spec_decompose(entries, msrc, tgt, fuel);
                        let kres = spec_decompose_kids(
                            entries,
                            msrc,
                            canon,
                            crate::fs_model::child_indices_from(entries, msrc, 0),
                            (fuel - 1) as nat,
                        );
                        assert forall|k: int| 0 <= k < res.len() implies {
                            let src = (#[trigger] res[k]).1;
                            src.len() >= msrc.len() && src.take(msrc.len() as int) == msrc
                        } by {
                            assert(res[k] == kres[k]);
                        }
                    }
                } else {
                    assert(msrc.take(msrc.len() as int) =~= msrc);
                }
            },
        }
    }
}

/// The child items of a split inherit the bound of their parent.
pub proof fn lemma_decompose_kids_sources_extend(
    entries: Seq<FsEntry>,
    msrc: Seq<Seq<u8>>,
    canon: Seq<Seq<u8>>,
    kids: Seq<int>,
    fuel: nat,
)
    ensures
        forall|k: int|
            0 <= k < spec_decompose_kids(entries, msrc, canon, kids, fuel).len() ==> {
                let src = (#[trigger] spec_decompose_kids(entries, msrc, canon, kids, fuel)[k]).1;
                src.len() >= msrc.len() && src.take(msrc.len() as int) == msrc
            },
    decreases fuel, 1nat, kids.len(),
{
    if kids.len() > 0 {
        let ci = kids[0];
        lemma_decompose_kids_sources_extend(entries, msrc, canon, kids.drop_first(), fuel);
        let rest = spec_decompose_kids(entries, msrc, canon, kids.drop_first(), fuel);
        if 0 <= ci < entries.len() && entries[ci].kind is Dir && entries[
            ci
        ].path.deep_view().len() > 0 {
            let nm = entries[ci].path.deep_view().last();
            lemma_decompose_sources_extend(entries, msrc.push(nm), canon.push(nm), fuel);
            let head = spec_decompose(entries, msrc.push(nm), canon.push(nm), fuel);
            assert forall|k: int|
                0 <= k < spec_decompose_kids(entries, msrc, canon, kids, fuel).len() implies {
                let src = (#[trigger] spec_decompose_kids(entries, msrc, canon, kids, fuel)[k]).1;
                src.len() >= msrc.len() && src.take(msrc.len() as int) == msrc
            } by {
                if k < head.len() {
                    assert(spec_decompose_kids(entries, msrc, canon, kids, fuel)[k] == head[k]);
                    assert(head[k].1.take(msrc.len() as int + 1) == msrc.push(nm));
                    assert(head[k].1.take(msrc.len() as int) =~= msrc);
                } else {
                    assert(spec_decompose_kids(entries, msrc, canon, kids, fuel)[k] == rest[k
                        - head.len()]);
                }
            }
        } else {
            assert forall|k: int|
                0 <= k < spec_decompose_kids(entries, msrc, canon, kids, fuel).len() implies {
                let src = (#[trigger] spec_decompose_kids(entries, msrc, canon, kids, fuel)[k]).1;
                src.len() >= msrc.len() && src.take(msrc.len() as int) == msrc
            } by {
                assert(spec_decompose_kids(entries, msrc, canon, kids, fuel)[k] == rest[k]);
            }
        }
    }
}

} // verus!
