//! The plan generator: decides which absolute system paths become
//! union-mount targets, which module directories layer onto each
//! target and in what precedence order, when a candidate target is
//! decomposed one level deeper instead of being mounted directly, and
//! which modules fall back to the per-node mount strategy.
//!
//! Everything here is pure computation over a [`Snapshot`]; nothing
//! touches the live filesystem.

use crate::fs_model::{
    child_indices_from, child_of, clone_name, clone_path, lemma_name_deep_view,
    lemma_path_deep_view_eq, lemma_path_deep_view_index, name_eq, path_push, spec_canonical,
    spec_is_dir, spec_node_exists, to_int_seq, AbsPath, Name, NodeKind, Snapshot,
};
use vstd::pervasive::VecAdditionalExecFns;
use vstd::prelude::*;

verus! {

/// What to do with one top-level directory of one module.
pub enum MountMode {
    /// The directory takes part in union mounting.
    Union,
    /// The whole module is routed to the per-node fallback strategy.
    Fallback,
    /// The directory is skipped entirely.
    Ignore,
}

/// One per-directory rule of a module: a top-level directory name and
/// the mode it is given.
pub struct DirRule {
    pub name: Name,
    pub mode: MountMode,
}

/// One content module, in caller-supplied precedence order (the first
/// module of the input sequence has the highest precedence).
pub struct Module {
    /// Unique module identifier.
    pub id: Name,
    /// Where the module's original content lives, used when no staged
    /// copy is present.
    pub source_root: AbsPath,
    /// Per-directory mount-mode rules; the first rule whose name
    /// matches decides, and directories without a rule default to
    /// union mounting.
    pub rules: Vec<DirRule>,
}

/// User configuration: extra partition names to union beyond the
/// built-in allow-list.
pub struct PlanConfig {
    pub extra_partitions: Vec<Name>,
}

/// One layer of a union operation: the contributing module and the
/// source directory it supplies.
pub struct Layer {
    pub module_id: Name,
    pub source: AbsPath,
}

/// One union-mount operation: an absolute target path, the partition
/// label inferred from its first component, and the layers ordered
/// highest-precedence first.
pub struct OverlayOperation {
    pub target: AbsPath,
    pub partition: Name,
    pub lowerdirs: Vec<Layer>,
}

/// The complete, immutable output of one planning pass.
pub struct MountPlan {
    pub overlay_ops: Vec<OverlayOperation>,
    pub magic_module_paths: Vec<AbsPath>,
    pub overlay_module_ids: Vec<Name>,
    pub magic_module_ids: Vec<Name>,
}

/// The bytes of the ASCII name `system`.
pub open spec fn system_name() -> Seq<u8> {
    seq![115u8, 121u8, 115u8, 116u8, 101u8, 109u8]
}

/// The bytes of the ASCII name `vendor`.
pub open spec fn vendor_name() -> Seq<u8> {
    seq![118u8, 101u8, 110u8, 100u8, 111u8, 114u8]
}

/// The bytes of the ASCII name `product`.
pub open spec fn product_name() -> Seq<u8> {
    seq![112u8, 114u8, 111u8, 100u8, 117u8, 99u8, 116u8]
}

/// The bytes of the ASCII name `system_ext`.
pub open spec fn system_ext_name() -> Seq<u8> {
    seq![115u8, 121u8, 115u8, 116u8, 101u8, 109u8, 95u8, 101u8, 120u8, 116u8]
}

/// The bytes of the ASCII name `odm`.
pub open spec fn odm_name() -> Seq<u8> {
    seq![111u8, 100u8, 109u8]
}

/// The built-in allow-list of top-level partition names.
pub open spec fn builtin_partitions() -> Seq<Seq<u8>> {
    seq![system_name(), vendor_name(), product_name(), system_ext_name(), odm_name()]
}

/// The partitions conventionally symlinked from the root filesystem
/// on split-partition layouts; targets ending in one of these are
/// decomposed one level deeper.
pub open spec fn sensitive_partitions() -> Seq<Seq<u8>> {
    seq![vendor_name(), product_name(), system_ext_name(), odm_name()]
}

/// Membership of a name in a list of names.
pub open spec fn name_in(list: Seq<Seq<u8>>, n: Seq<u8>) -> bool {
    exists|i: int| 0 <= i < list.len() && list[i] == n
}

/// The bytes of the ASCII name `system`.
pub fn make_system_name() -> (r: Name)
    ensures
        r@ == system_name(),
{
    let mut v: Vec<u8> = Vec::new();
    v.push(115);
    v.push(121);
    v.push(115);
    v.push(116);
    v.push(101);
    v.push(109);
    proof {
        assert(v@ =~= system_name());
    }
    v
}

/// The bytes of the ASCII name `vendor`.
pub fn make_vendor_name() -> (r: Name)
    ensures
        r@ == vendor_name(),
{
    let mut v: Vec<u8> = Vec::new();
    v.push(118);
    v.push(101);
    v.push(110);
    v.push(100);
    v.push(111);
    v.push(114);
    proof {
        assert(v@ =~= vendor_name());
    }
    v
}

/// The bytes of the ASCII name `product`.
pub fn make_product_name() -> (r: Name)
    ensures
        r@ == product_name(),
{
    let mut v: Vec<u8> = Vec::new();
    v.push(112);
    v.push(114);
    v.push(111);
    v.push(100);
    v.push(117);
    v.push(99);
    v.push(116);
    proof {
        assert(v@ =~= product_name());
    }
    v
}

/// The bytes of the ASCII name `system_ext`.
pub fn make_system_ext_name() -> (r: Name)
    ensures
        r@ == system_ext_name(),
{
    let mut v = make_system_name();
    v.push(95);
    v.push(101);
    v.push(120);
    v.push(116);
    proof {
        assert(v@ =~= system_ext_name());
    }
    v
}

/// The bytes of the ASCII name `odm`.
pub fn make_odm_name() -> (r: Name)
    ensures
        r@ == odm_name(),
{
    let mut v: Vec<u8> = Vec::new();
    v.push(111);
    v.push(100);
    v.push(109);
    proof {
        assert(v@ =~= odm_name());
    }
    v
}

/// The built-in partition allow-list, as a vector.
pub fn make_builtin_partitions() -> (r: Vec<Name>)
    ensures
        r.deep_view() == builtin_partitions(),
{
    let mut v: Vec<Name> = Vec::new();
    v.push(make_system_name());
    v.push(make_vendor_name());
    v.push(make_product_name());
    v.push(make_system_ext_name());
    v.push(make_odm_name());
    proof {
        assert forall|j: int| 0 <= j < v@.len() implies v@[j]@ == builtin_partitions()[j] by {}
        lemma_path_deep_view_eq(v, builtin_partitions());
    }
    v
}

/// The sensitive-partition list, as a vector.
pub fn make_sensitive_partitions() -> (r: Vec<Name>)
    ensures
        r.deep_view() == sensitive_partitions(),
{
    let mut v: Vec<Name> = Vec::new();
    v.push(make_vendor_name());
    v.push(make_product_name());
    v.push(make_system_ext_name());
    v.push(make_odm_name());
    proof {
        assert forall|j: int| 0 <= j < v@.len() implies v@[j]@ == sensitive_partitions()[j] by {}
        lemma_path_deep_view_eq(v, sensitive_partitions());
    }
    v
}

/// Whether `n` occurs in `list`.
#[verifier::loop_isolation(false)]
pub fn names_contain(list: &Vec<Name>, n: &Name) -> (r: bool)
    ensures
        r == name_in(list.deep_view(), n@),
{
    let m = list.len();
    let mut i: usize = 0;
    while i < m
        invariant
            i <= m,
            forall|j: int| 0 <= j < i ==> list.deep_view()[j] != n@,
        decreases m - i,
    {
        proof {
            lemma_path_deep_view_index(*list, i as int);
        }
        if name_eq(&list[i], n) {
            proof {
                assert(list.deep_view()[i as int] == n@);
            }
            return true;
        }
        i += 1;
    }
    proof {
        if list@.len() > 0 {
            lemma_path_deep_view_index(*list, 0);
        } else {
            assert(list.deep_view() =~= Seq::<Seq<u8>>::empty());
        }
    }
    false
}

/// The mode that a module's rules give to the directory `name`: the
/// first matching rule decides, and the default is union mounting.
pub open spec fn rule_mode(rules: Seq<DirRule>, name: Seq<u8>) -> MountMode
    decreases rules.len(),
{
    if rules.len() == 0 {
        MountMode::Union
    } else if rules[0].name@ == name {
        rules[0].mode
    } else {
        rule_mode(rules.drop_first(), name)
    }
}

/// Looks up the mode of the directory `name`; see [`rule_mode`].
#[verifier::loop_isolation(false)]
pub fn lookup_rule(rules: &Vec<DirRule>, name: &Name) -> (r: MountMode)
    ensures
        r == rule_mode(rules@, name@),
{
    let m = rules.len();
    let mut i: usize = 0;
    proof {
        assert(rules@.skip(0) =~= rules@);
    }
    while i < m
        invariant
            i <= m,
            rule_mode(rules@, name@) == rule_mode(rules@.skip(i as int), name@),
        decreases m - i,
    {
        proof {
            assert(rules@.skip(i as int)[0] == rules@[i as int]);
            assert(rules@.skip(i as int).drop_first() =~= rules@.skip(i as int + 1));
        }
        if name_eq(&rules[i].name, name) {
            return match &rules[i].mode {
                MountMode::Union => MountMode::Union,
                MountMode::Fallback => MountMode::Fallback,
                MountMode::Ignore => MountMode::Ignore,
            };
        }
        i += 1;
    }
    proof {
        assert(rules@.skip(m as int).len() == 0);
    }
    MountMode::Union
}

/// How deep decomposition may descend before giving up on a branch.
pub const DEPTH_FUEL: u32 = 64;

/// A registered layer contribution: a canonical union target and the
/// module source directory layered onto it.
pub struct Registration {
    pub target: AbsPath,
    pub source: AbsPath,
}

/// The targets and sources of a list of registrations.
pub open spec fn regs_view(s: Seq<Registration>) -> Seq<(Seq<Seq<u8>>, Seq<Seq<u8>>)> {
    Seq::new(s.len(), |i: int| (s[i].target.deep_view(), s[i].source.deep_view()))
}

/// Whether a canonical target must be decomposed one level deeper:
/// its final component is a sensitive partition name or the literal
/// name `system`.
pub open spec fn spec_needs_split(canon: Seq<Seq<u8>>) -> bool {
    canon.len() > 0 && (canon.last() == system_name() || name_in(
        sensitive_partitions(),
        canon.last(),
    ))
}

/// Whether the target `canon` must be decomposed further; see
/// [`spec_needs_split`].
pub fn needs_split(canon: &AbsPath, sensitive: &Vec<Name>) -> (r: bool)
    requires
        sensitive.deep_view() == sensitive_partitions(),
    ensures
        r == spec_needs_split(canon.deep_view()),
{
    if canon.len() == 0 {
        proof {
            assert(canon.deep_view() =~= Seq::<Seq<u8>>::empty());
        }
        return false;
    }
    proof {
        lemma_path_deep_view_index(*canon, canon@.len() - 1);
    }
    let last = &canon[canon.len() - 1];
    let sys = make_system_name();
    if name_eq(last, &sys) {
        return true;
    }
    names_contain(sensitive, last)
}

/// The decomposition of one queued item: the layer registrations
/// produced for the pending source directory `msrc` and candidate
/// system target `tgt`. An item whose target is missing from the
/// snapshot, or whose target cannot be resolved, is dropped; a
/// resolvable target that needs splitting is replaced by one item per
/// immediate subdirectory of `msrc`, one level deeper, until `fuel`
/// runs out; any other target is registered with `msrc` as one layer.
pub open spec fn spec_decompose(
    entries: Seq<crate::fs_model::FsEntry>,
    msrc: Seq<Seq<u8>>,
    tgt: Seq<Seq<u8>>,
    fuel: nat,
) -> Seq<(Seq<Seq<u8>>, Seq<Seq<u8>>)>
    decreases fuel, 0nat, 0nat,
{
    if !spec_node_exists(entries, tgt) {
        Seq::empty()
    } else {
        match spec_canonical(entries, tgt) {
            None => Seq::empty(),
            Some(canon) => {
                if spec_needs_split(canon) {
                    if fuel == 0 {
                        Seq::empty()
                    } else {
                        spec_decompose_kids(
                            entries,
                            msrc,
                            canon,
                            child_indices_from(entries, msrc, 0),
                            (fuel - 1) as nat,
                        )
                    }
                } else {
                    seq![(canon, msrc)]
                }
            },
        }
    }
}

/// Decomposition of the children of a split item; `kids` are indices
/// of snapshot entries lying directly below the source directory.
pub open spec fn spec_decompose_kids(
    entries: Seq<crate::fs_model::FsEntry>,
    msrc: Seq<Seq<u8>>,
    canon: Seq<Seq<u8>>,
    kids: Seq<int>,
    fuel: nat,
) -> Seq<(Seq<Seq<u8>>, Seq<Seq<u8>>)>
    decreases fuel, 1nat, kids.len(),
{
    if kids.len() == 0 {
        Seq::empty()
    } else {
        let ci = kids[0];
        let head: Seq<(Seq<Seq<u8>>, Seq<Seq<u8>>)> = if 0 <= ci < entries.len()
            && entries[ci].kind is Dir && entries[ci].path.deep_view().len() > 0 {
            let nm = entries[ci].path.deep_view().last();
            spec_decompose(entries, msrc.push(nm), canon.push(nm), fuel)
        } else {
            Seq::empty()
        };
        head + spec_decompose_kids(entries, msrc, canon, kids.drop_first(), fuel)
    }
}

/// One unfolding step of `spec_decompose_kids`.
pub proof fn lemma_decompose_kids_unfold(
    entries: Seq<crate::fs_model::FsEntry>,
    msrc: Seq<Seq<u8>>,
    canon: Seq<Seq<u8>>,
    kids: Seq<int>,
    fuel: nat,
)
    requires
        kids.len() > 0,
    ensures
        spec_decompose_kids(entries, msrc, canon, kids, fuel) == (if 0 <= kids[0] < entries.len()
            && entries[kids[0]].kind is Dir && entries[kids[0]].path.deep_view().len() > 0 {
            spec_decompose(
                entries,
                msrc.push(entries[kids[0]].path.deep_view().last()),
                canon.push(entries[kids[0]].path.deep_view().last()),
                fuel,
            )
        } else {
            Seq::empty()
        }) + spec_decompose_kids(entries, msrc, canon, kids.drop_first(), fuel),
{
}

/// Decomposes one queued item; see [`spec_decompose`].
#[verifier::loop_isolation(false)]
pub fn decompose_item(
    fs: &Snapshot,
    msrc: &AbsPath,
    tgt: &AbsPath,
    sensitive: &Vec<Name>,
    fuel: u32,
) -> (r: Vec<Registration>)
    requires
        sensitive.deep_view() == sensitive_partitions(),
    ensures
        regs_view(r@) == spec_decompose(fs.entries@, msrc.deep_view(), tgt.deep_view(), fuel as nat),
    decreases fuel, 0nat, 0nat,
{
    let empty: Vec<Registration> = Vec::new();
    proof {
        assert(regs_view(empty@) =~= Seq::<(Seq<Seq<u8>>, Seq<Seq<u8>>)>::empty());
    }
    if !fs.node_exists(tgt) {
        return empty;
    }
    match fs.canonicalize(tgt) {
        None => empty,
        Some(canon) => {
            if needs_split(&canon, sensitive) {
                if fuel == 0 {
                    return empty;
                }
                let kids = fs.children_of(msrc);
                let mut acc: Vec<Registration> = Vec::new();
                let n = kids.len();
                let mut k: usize = 0;
                let ghost kseq = child_indices_from(fs.entries@, msrc.deep_view(), 0);
                proof {
                    assert(regs_view(acc@) =~= Seq::<(Seq<Seq<u8>>, Seq<Seq<u8>>)>::empty());
                    assert(kseq.skip(0) =~= kseq);
                    assert(to_int_seq(kids@).len() == kids@.len());
                    assert forall|j: int| 0 <= j < kids@.len() implies kseq[j] == kids@[j] as int by {
                        assert(to_int_seq(kids@)[j] == kids@[j] as int);
                    }
                }
                while k < n
                    invariant
                        k <= n,
                        n == kids@.len(),
                        kseq.len() == n,
                        forall|j: int| 0 <= j < n ==> kseq[j] == kids@[j] as int,
                        spec_decompose_kids(
                            fs.entries@,
                            msrc.deep_view(),
                            canon.deep_view(),
                            kseq,
                            (fuel - 1) as nat,
                        ) == regs_view(acc@) + spec_decompose_kids(
                            fs.entries@,
                            msrc.deep_view(),
                            canon.deep_view(),
                            kseq.skip(k as int),
                            (fuel - 1) as nat,
                        ),
                    decreases n - k,
                {
                    let ci = kids[k];
                    let ghost acc0 = regs_view(acc@);
                    proof {
                        assert(kseq.skip(k as int)[0] == kseq[k as int]);
                        assert(kseq.skip(k as int).drop_first() =~= kseq.skip(k as int + 1));
                        lemma_decompose_kids_unfold(
                            fs.entries@,
                            msrc.deep_view(),
                            canon.deep_view(),
                            kseq.skip(k as int),
                            (fuel - 1) as nat,
                        );
                    }
                    proof {
                        assert(kids@[k as int] < fs.entries@.len());
                    }
                    let e = &fs.entries[ci];
                    let is_dir_kind = match &e.kind {
                        NodeKind::Dir => true,
                        _ => false,
                    };
                    proof {
                        assert(child_of(msrc.deep_view(), e.path.deep_view()));
                    }
                    if is_dir_kind {
                        proof {
                            lemma_path_deep_view_index(e.path, e.path@.len() - 1);
                        }
                        let nm = &e.path[e.path.len() - 1];
                        let child_src = path_push(msrc, nm);
                        let child_tgt = path_push(&canon, nm);
                        let sub = decompose_item(fs, &child_src, &child_tgt, sensitive, fuel - 1);
                        let m = sub.len();
                        let mut t: usize = 0;
                        while t < m
                            invariant
                                t <= m,
                                m == sub@.len(),
                                regs_view(acc@) == acc0 + regs_view(sub@).take(t as int),
                            decreases m - t,
                        {
                            let ghost accv = regs_view(acc@);
                            let reg = Registration {
                                target: clone_path(&sub[t].target),
                                source: clone_path(&sub[t].source),
                            };
                            acc.push(reg);
                            proof {
                                assert(regs_view(acc@) =~= accv.push(
                                    (
                                        sub@[t as int].target.deep_view(),
                                        sub@[t as int].source.deep_view(),
                                    ),
                                ));
                                assert(regs_view(sub@)[t as int] == (
                                    sub@[t as int].target.deep_view(),
                                    sub@[t as int].source.deep_view(),
                                ));
                                assert(regs_view(acc@) =~= acc0 + regs_view(sub@).take(
                                    t as int + 1,
                                ));
                            }
                            t += 1;
                        }
                        proof {
                            let rest = spec_decompose_kids(
                                fs.entries@,
                                msrc.deep_view(),
                                canon.deep_view(),
                                kseq.skip(k as int + 1),
                                (fuel - 1) as nat,
                            );
                            assert(regs_view(sub@).take(m as int) =~= regs_view(sub@));
                            assert(regs_view(acc@) == acc0 + regs_view(sub@));
                            assert(e.path.deep_view().last() == e.path@[e.path@.len() - 1]@);
                            assert(spec_decompose_kids(
                                fs.entries@,
                                msrc.deep_view(),
                                canon.deep_view(),
                                kseq.skip(k as int),
                                (fuel - 1) as nat,
                            ) == regs_view(sub@) + rest);
                            assert(acc0 + (regs_view(sub@) + rest) =~= (acc0 + regs_view(sub@))
                                + rest);
                        }
                    } else {
                        proof {
                            let rest = spec_decompose_kids(
                                fs.entries@,
                                msrc.deep_view(),
                                canon.deep_view(),
                                kseq.skip(k as int + 1),
                                (fuel - 1) as nat,
                            );
                            assert(Seq::<(Seq<Seq<u8>>, Seq<Seq<u8>>)>::empty() + rest =~= rest);
                        }
                    }
                    k += 1;
                }
                proof {
                    assert(kseq.skip(n as int).len() == 0);
                    assert(spec_decompose_kids(
                        fs.entries@,
                        msrc.deep_view(),
                        canon.deep_view(),
                        kseq.skip(n as int),
                        (fuel - 1) as nat,
                    ) =~= Seq::<(Seq<Seq<u8>>, Seq<Seq<u8>>)>::empty());
                    assert(regs_view(acc@) + Seq::<(Seq<Seq<u8>>, Seq<Seq<u8>>)>::empty()
                        =~= regs_view(acc@));
                }
                acc
            } else {
                let mut one: Vec<Registration> = Vec::new();
                one.push(Registration { target: canon, source: clone_path(msrc) });
                proof {
                    assert(regs_view(one@) =~= seq![
                        (one@[0].target.deep_view(), msrc.deep_view()),
                    ]);
                }
                one
            }
        },
    }
}

/// One accumulator row: a canonical union target and the layers so
/// far registered onto it, in registration order.
pub struct AccEntry {
    pub target: AbsPath,
    pub layers: Vec<Layer>,
}

/// The identifiers and sources of a layer list.
pub open spec fn layers_view(s: Seq<Layer>) -> Seq<(Seq<u8>, Seq<Seq<u8>>)> {
    Seq::new(s.len(), |i: int| (s[i].module_id@, s[i].source.deep_view()))
}

/// The targets and layer lists of the accumulator.
pub open spec fn acc_view(s: Seq<AccEntry>) -> Seq<(Seq<Seq<u8>>, Seq<(Seq<u8>, Seq<Seq<u8>>)>)> {
    Seq::new(s.len(), |i: int| (s[i].target.deep_view(), layers_view(s[i].layers@)))
}

/// The index of the accumulator row for `tgt`, or -1.
pub open spec fn acc_find(
    acc: Seq<(Seq<Seq<u8>>, Seq<(Seq<u8>, Seq<Seq<u8>>)>)>,
    tgt: Seq<Seq<u8>>,
) -> int
    decreases acc.len(),
{
    if acc.len() == 0 {
        -1
    } else if acc[0].0 == tgt {
        0
    } else {
        let r = acc_find(acc.drop_first(), tgt);
        if r < 0 {
            -1
        } else {
            r + 1
        }
    }
}

/// A row matching at `i`, with no earlier match, is the one found.
pub proof fn lemma_acc_find_at(
    acc: Seq<(Seq<Seq<u8>>, Seq<(Seq<u8>, Seq<Seq<u8>>)>)>,
    tgt: Seq<Seq<u8>>,
    i: int,
)
    requires
        0 <= i < acc.len(),
        acc[i].0 == tgt,
        forall|j: int| 0 <= j < i ==> (#[trigger] acc[j]).0 != tgt,
    ensures
        acc_find(acc, tgt) == i,
    decreases i,
{
    if i > 0 {
        assert forall|j: int| 0 <= j < i - 1 implies (#[trigger] acc.drop_first()[j]).0 != tgt by {
            assert(acc.drop_first()[j] == acc[j + 1]);
        }
        assert(acc.drop_first()[i - 1] == acc[i]);
        lemma_acc_find_at(acc.drop_first(), tgt, i - 1);
    }
}

/// With no matching row, nothing is found.
pub proof fn lemma_acc_find_none(
    acc: Seq<(Seq<Seq<u8>>, Seq<(Seq<u8>, Seq<Seq<u8>>)>)>,
    tgt: Seq<Seq<u8>>,
)
    requires
        forall|j: int| 0 <= j < acc.len() ==> (#[trigger] acc[j]).0 != tgt,
    ensures
        acc_find(acc, tgt) == -1,
    decreases acc.len(),
{
    if acc.len() > 0 {
        assert forall|j: int|
            0 <= j < acc.drop_first().len() implies (#[trigger] acc.drop_first()[j]).0 != tgt by {
            assert(acc.drop_first()[j] == acc[j + 1]);
        }
        lemma_acc_find_none(acc.drop_first(), tgt);
    }
}

/// One layer registered: appended to the row of its target, or put
/// into a fresh row at the end.
pub open spec fn acc_add(
    acc: Seq<(Seq<Seq<u8>>, Seq<(Seq<u8>, Seq<Seq<u8>>)>)>,
    tgt: Seq<Seq<u8>>,
    layer: (Seq<u8>, Seq<Seq<u8>>),
) -> Seq<(Seq<Seq<u8>>, Seq<(Seq<u8>, Seq<Seq<u8>>)>)> {
    let i = acc_find(acc, tgt);
    if i < 0 {
        acc.push((tgt, seq![layer]))
    } else {
        acc.update(i, (acc[i].0, acc[i].1.push(layer)))
    }
}

/// All of `regs` registered for the module `mid`, in order.
pub open spec fn apply_regs(
    acc: Seq<(Seq<Seq<u8>>, Seq<(Seq<u8>, Seq<Seq<u8>>)>)>,
    mid: Seq<u8>,
    regs: Seq<(Seq<Seq<u8>>, Seq<Seq<u8>>)>,
) -> Seq<(Seq<Seq<u8>>, Seq<(Seq<u8>, Seq<Seq<u8>>)>)>
    decreases regs.len(),
{
    if regs.len() == 0 {
        acc
    } else {
        apply_regs(acc_add(acc, regs[0].0, (mid, regs[0].1)), mid, regs.drop_first())
    }
}

/// One unfolding step of `apply_regs`.
pub proof fn lemma_apply_regs_unfold(
    acc: Seq<(Seq<Seq<u8>>, Seq<(Seq<u8>, Seq<Seq<u8>>)>)>,
    mid: Seq<u8>,
    regs: Seq<(Seq<Seq<u8>>, Seq<Seq<u8>>)>,
)
    requires
        regs.len() > 0,
    ensures
        apply_regs(acc, mid, regs) == apply_regs(
            acc_add(acc, regs[0].0, (mid, regs[0].1)),
            mid,
            regs.drop_first(),
        ),
{
}

/// Copy of a layer list.
pub fn clone_layers(s: &Vec<Layer>) -> (r: Vec<Layer>)
    ensures
        layers_view(r@) == layers_view(s@),
{
    let n = s.len();
    let mut r: Vec<Layer> = Vec::new();
    let mut i: usize = 0;
    while i < n
        invariant
            i <= n,
            n == s@.len(),
            r@.len() == i,
            forall|j: int|
                0 <= j < i ==> (#[trigger] r@[j]).module_id@ == s@[j].module_id@
                    && r@[j].source.deep_view() == s@[j].source.deep_view(),
        decreases n - i,
    {
        r.push(
            Layer { module_id: clone_name(&s[i].module_id), source: clone_path(&s[i].source) },
        );
        i += 1;
    }
    proof {
        assert(layers_view(r@) =~= layers_view(s@));
    }
    r
}

/// Registers one layer; see [`acc_add`].
#[verifier::loop_isolation(false)]
pub fn acc_add_vec(acc: &mut Vec<AccEntry>, tgt: &AbsPath, module_id: &Name, source: &AbsPath)
    ensures
        acc_view(final(acc)@) == acc_add(
            acc_view(old(acc)@),
            tgt.deep_view(),
            (module_id@, source.deep_view()),
        ),
{
    let ghost av = acc_view(acc@);
    let layer = Layer { module_id: clone_name(module_id), source: clone_path(source) };
    let n = acc.len();
    let mut i: usize = 0;
    while i < n
        invariant
            i <= n,
            n == acc@.len(),
            acc_view(acc@) == av,
            forall|j: int| 0 <= j < i ==> (#[trigger] av[j]).0 != tgt.deep_view(),
        decreases n - i,
    {
        proof {
            assert(acc_view(acc@)[i as int] == (
                acc@[i as int].target.deep_view(),
                layers_view(acc@[i as int].layers@),
            ));
        }
        if crate::fs_model::path_eq(&acc[i].target, tgt) {
            proof {
                assert(av[i as int].0 == tgt.deep_view());
                lemma_acc_find_at(av, tgt.deep_view(), i as int);
            }
            let mut layers = clone_layers(&acc[i].layers);
            let ghost lv = layers_view(layers@);
            layers.push(layer);
            let entry = AccEntry { target: clone_path(&acc[i].target), layers };
            acc.set(i, entry);
            proof {
                assert(layers_view(entry.layers@) =~= lv.push(
                    (module_id@, source.deep_view()),
                ));
                assert(acc_view(acc@) =~= acc_add(
                    av,
                    tgt.deep_view(),
                    (module_id@, source.deep_view()),
                ));
            }
            return ;
        }
        proof {
            assert(av[i as int].0 != tgt.deep_view());
        }
        i += 1;
    }
    proof {
        lemma_acc_find_none(av, tgt.deep_view());
    }
    let mut layers: Vec<Layer> = Vec::new();
    layers.push(layer);
    let entry = AccEntry { target: clone_path(tgt), layers };
    acc.push(entry);
    proof {
        assert(layers_view(entry.layers@) =~= seq![(module_id@, source.deep_view())]);
        assert(acc_view(acc@) =~= acc_add(av, tgt.deep_view(), (module_id@, source.deep_view())));
    }
}

/// Registers all of `regs`; see [`apply_regs`].
#[verifier::loop_isolation(false)]
pub fn acc_apply_vec(acc: &mut Vec<AccEntry>, module_id: &Name, regs: &Vec<Registration>)
    ensures
        acc_view(final(acc)@) == apply_regs(acc_view(old(acc)@), module_id@, regs_view(regs@)),
{
    let ghost orig = acc_view(acc@);
    let ghost rv = regs_view(regs@);
    let n = regs.len();
    let mut t: usize = 0;
    proof {
        assert(rv.skip(0) =~= rv);
    }
    while t < n
        invariant
            t <= n,
            n == regs@.len(),
            apply_regs(acc_view(acc@), module_id@, rv.skip(t as int)) == apply_regs(
                orig,
                module_id@,
                rv,
            ),
        decreases n - t,
    {
        let ghost before = acc_view(acc@);
        proof {
            assert(rv.skip(t as int)[0] == rv[t as int]);
            assert(rv.skip(t as int).drop_first() =~= rv.skip(t as int + 1));
            lemma_apply_regs_unfold(before, module_id@, rv.skip(t as int));
        }
        acc_add_vec(acc, &regs[t].target, module_id, &regs[t].source);
        t += 1;
    }
    proof {
        assert(rv.skip(n as int).len() == 0);
    }
}

/// The generator's intermediate state: the target accumulator, the
/// participating module identifiers, and the fallback identifiers
/// with their content roots, all in first-contribution order.
pub struct GenState {
    pub acc: Seq<(Seq<Seq<u8>>, Seq<(Seq<u8>, Seq<Seq<u8>>)>)>,
    pub overlay_ids: Seq<Seq<u8>>,
    pub magic_ids: Seq<Seq<u8>>,
    pub magic_paths: Seq<Seq<Seq<u8>>>,
}

/// The state before any module is scanned.
pub open spec fn init_state() -> GenState {
    GenState {
        acc: Seq::empty(),
        overlay_ids: Seq::empty(),
        magic_ids: Seq::empty(),
        magic_paths: Seq::empty(),
    }
}

/// The effective content root of a module: its staged copy below
/// `storage_root` when present, else its original source location,
/// else nothing.
pub open spec fn effective_root(
    entries: Seq<crate::fs_model::FsEntry>,
    storage_root: Seq<Seq<u8>>,
    m: Module,
) -> Option<Seq<Seq<u8>>> {
    let staged = storage_root.push(m.id@);
    if spec_node_exists(entries, staged) {
        Some(staged)
    } else if spec_node_exists(entries, m.source_root.deep_view()) {
        Some(m.source_root.deep_view())
    } else {
        None
    }
}

/// The scan of one immediate subdirectory (snapshot entry `ci`) of a
/// module's content root: directories outside the allowed partition
/// set are skipped, `Fallback` records the module for the per-node
/// strategy, `Ignore` does nothing, and `Union` decomposes the
/// directory and registers the resulting layers, marking the module
/// as participating when at least one layer was registered.
pub open spec fn scan_one_dir(
    entries: Seq<crate::fs_model::FsEntry>,
    allowed: Seq<Seq<u8>>,
    m: Module,
    root: Seq<Seq<u8>>,
    ci: int,
    st: GenState,
) -> GenState {
    if !(0 <= ci < entries.len()) || !(entries[ci].kind is Dir) || entries[
        ci
    ].path.deep_view().len() == 0 {
        st
    } else {
        let nm = entries[ci].path.deep_view().last();
        if !name_in(allowed, nm) {
            st
        } else {
            match rule_mode(m.rules@, nm) {
                MountMode::Fallback => {
                    if name_in(st.magic_ids, m.id@) {
                        st
                    } else {
                        GenState {
                            acc: st.acc,
                            overlay_ids: st.overlay_ids,
                            magic_ids: st.magic_ids.push(m.id@),
                            magic_paths: st.magic_paths.push(root),
                        }
                    }
                },
                MountMode::Ignore => st,
                MountMode::Union => {
                    let regs = spec_decompose(entries, root.push(nm), seq![nm], DEPTH_FUEL as nat);
                    GenState {
                        acc: apply_regs(st.acc, m.id@, regs),
                        overlay_ids: if regs.len() > 0 && !name_in(st.overlay_ids, m.id@) {
                            st.overlay_ids.push(m.id@)
                        } else {
                            st.overlay_ids
                        },
                        magic_ids: st.magic_ids,
                        magic_paths: st.magic_paths,
                    }
                },
            }
        }
    }
}

/// The scan of the subdirectories `kids` of one module root, in
/// order.
pub open spec fn scan_dirs(
    entries: Seq<crate::fs_model::FsEntry>,
    allowed: Seq<Seq<u8>>,
    m: Module,
    root: Seq<Seq<u8>>,
    kids: Seq<int>,
    st: GenState,
) -> GenState
    decreases kids.len(),
{
    if kids.len() == 0 {
        st
    } else {
        scan_dirs(
            entries,
            allowed,
            m,
            root,
            kids.drop_first(),
            scan_one_dir(entries, allowed, m, root, kids[0], st),
        )
    }
}

/// One unfolding step of `scan_dirs`.
pub proof fn lemma_scan_dirs_unfold(
    entries: Seq<crate::fs_model::FsEntry>,
    allowed: Seq<Seq<u8>>,
    m: Module,
    root: Seq<Seq<u8>>,
    kids: Seq<int>,
    st: GenState,
)
    requires
        kids.len() > 0,
    ensures
        scan_dirs(entries, allowed, m, root, kids, st) == scan_dirs(
            entries,
            allowed,
            m,
            root,
            kids.drop_first(),
            scan_one_dir(entries, allowed, m, root, kids[0], st),
        ),
{
}

/// The scan of one module: nothing when it has no effective content
/// root, else the scan of that root's immediate subdirectories.
pub open spec fn scan_module(
    entries: Seq<crate::fs_model::FsEntry>,
    allowed: Seq<Seq<u8>>,
    storage_root: Seq<Seq<u8>>,
    m: Module,
    st: GenState,
) -> GenState {
    match effective_root(entries, storage_root, m) {
        None => st,
        Some(root) => scan_dirs(
            entries,
            allowed,
            m,
            root,
            child_indices_from(entries, root, 0),
            st,
        ),
    }
}

/// The scan of the first `i` modules, in precedence order.
pub open spec fn scan_modules(
    entries: Seq<crate::fs_model::FsEntry>,
    allowed: Seq<Seq<u8>>,
    storage_root: Seq<Seq<u8>>,
    modules: Seq<Module>,
    i: int,
) -> GenState
    decreases i,
{
    if i <= 0 {
        init_state()
    } else {
        scan_module(
            entries,
            allowed,
            storage_root,
            modules[i - 1],
            scan_modules(entries, allowed, storage_root, modules, i - 1),
        )
    }
}

/// One unfolding step of `scan_modules`.
pub proof fn lemma_scan_modules_unfold(
    entries: Seq<crate::fs_model::FsEntry>,
    allowed: Seq<Seq<u8>>,
    storage_root: Seq<Seq<u8>>,
    modules: Seq<Module>,
    i: int,
)
    requires
        i > 0,
    ensures
        scan_modules(entries, allowed, storage_root, modules, i) == scan_module(
            entries,
            allowed,
            storage_root,
            modules[i - 1],
            scan_modules(entries, allowed, storage_root, modules, i - 1),
        ),
{
}

/// The emitted operations for the accumulator rows from `i` on: rows
/// whose target is not an existing directory, or resolves to the root
/// itself, are dropped; every other row becomes one operation whose
/// partition label is the first component of its target.
pub open spec fn emit_ops(
    entries: Seq<crate::fs_model::FsEntry>,
    acc: Seq<(Seq<Seq<u8>>, Seq<(Seq<u8>, Seq<Seq<u8>>)>)>,
    i: int,
) -> Seq<(Seq<Seq<u8>>, Seq<u8>, Seq<(Seq<u8>, Seq<Seq<u8>>)>)>
    decreases acc.len() - i,
{
    if i < 0 || i >= acc.len() {
        Seq::empty()
    } else {
        let rest = emit_ops(entries, acc, i + 1);
        if acc[i].0.len() > 0 && spec_is_dir(entries, acc[i].0) {
            seq![(acc[i].0, acc[i].0[0], acc[i].1)] + rest
        } else {
            rest
        }
    }
}

/// One unfolding step of `emit_ops`.
pub proof fn lemma_emit_ops_unfold(
    entries: Seq<crate::fs_model::FsEntry>,
    acc: Seq<(Seq<Seq<u8>>, Seq<(Seq<u8>, Seq<Seq<u8>>)>)>,
    i: int,
)
    requires
        0 <= i < acc.len(),
    ensures
        emit_ops(entries, acc, i) == (if acc[i].0.len() > 0 && spec_is_dir(entries, acc[i].0) {
            seq![(acc[i].0, acc[i].0[0], acc[i].1)] + emit_ops(entries, acc, i + 1)
        } else {
            emit_ops(entries, acc, i + 1)
        }),
{
}

/// Past the end of the accumulator nothing is emitted.
pub proof fn lemma_emit_ops_end(
    entries: Seq<crate::fs_model::FsEntry>,
    acc: Seq<(Seq<Seq<u8>>, Seq<(Seq<u8>, Seq<Seq<u8>>)>)>,
    i: int,
)
    requires
        i >= acc.len(),
    ensures
        emit_ops(entries, acc, i) == Seq::<(Seq<Seq<u8>>, Seq<u8>, Seq<(Seq<u8>, Seq<Seq<u8>>)>)>::empty(),
{
}

/// The targets, partition labels and layers of an operation list.
pub open spec fn ops_view(s: Seq<OverlayOperation>) -> Seq<
    (Seq<Seq<u8>>, Seq<u8>, Seq<(Seq<u8>, Seq<Seq<u8>>)>),
> {
    Seq::new(s.len(), |i: int| (s[i].target.deep_view(), s[i].partition@, layers_view(s[i].lowerdirs@)))
}

/// Appends a module identifier, tracking the deep view.
pub fn push_id(ids: &mut Vec<Name>, x: Name)
    ensures
        final(ids).deep_view() == old(ids).deep_view().push(x@),
{
    let ghost v0 = *ids;
    proof {
        lemma_name_deep_view(x);
        if ids@.len() > 0 {
            lemma_path_deep_view_index(*ids, 0);
        } else {
            assert(ids.deep_view() =~= Seq::<Seq<u8>>::empty());
        }
    }
    ids.push(x);
    proof {
        assert forall|j: int| 0 <= j < ids@.len() implies ids@[j]@ == v0.deep_view().push(x@)[j] by {
            if j < v0@.len() {
                lemma_path_deep_view_index(v0, j);
            }
        }
        lemma_path_deep_view_eq(*ids, v0.deep_view().push(x@));
    }
}

/// Index-wise characterization of the deep view of a path list.
pub proof fn lemma_paths_deep_view_index(v: Vec<AbsPath>, j: int)
    requires
        0 <= j < v@.len(),
    ensures
        v.deep_view().len() == v@.len(),
        v.deep_view()[j] == v@[j].deep_view(),
{
}

/// Appends a content-root path, tracking the deep view.
pub fn push_root_path(v: &mut Vec<AbsPath>, x: AbsPath)
    ensures
        final(v).deep_view() == old(v).deep_view().push(x.deep_view()),
{
    let ghost v0 = *v;
    proof {
        if v@.len() > 0 {
            lemma_paths_deep_view_index(*v, 0);
        } else {
            assert(v.deep_view() =~= Seq::<Seq<Seq<u8>>>::empty());
        }
    }
    v.push(x);
    proof {
        assert forall|j: int|
            0 <= j < v@.len() implies v.deep_view()[j] == v0.deep_view().push(
            x.deep_view(),
        )[j] by {
            assert(v.deep_view()[j] == v@[j].deep_view());
            if j < v0@.len() {
                assert(v@[j] == v0@[j]);
                lemma_paths_deep_view_index(v0, j);
            }
        }
        assert(v.deep_view() =~= v0.deep_view().push(x.deep_view()));
    }
}

/// The generator state assembled from its four components.
pub open spec fn mk_state(
    a: Seq<(Seq<Seq<u8>>, Seq<(Seq<u8>, Seq<Seq<u8>>)>)>,
    o: Seq<Seq<u8>>,
    g: Seq<Seq<u8>>,
    p: Seq<Seq<Seq<u8>>>,
) -> GenState {
    GenState { acc: a, overlay_ids: o, magic_ids: g, magic_paths: p }
}

/// Whether the directory `p` holds at least one entry.
pub fn has_files(fs: &Snapshot, p: &AbsPath) -> (r: bool)
    ensures
        r == (child_indices_from(fs.entries@, p.deep_view(), 0).len() > 0),
{
    let kids = fs.children_of(p);
    proof {
        assert(to_int_seq(kids@).len() == kids@.len());
    }
    kids.len() > 0
}

/// Whether the module content below `base` has at least one
/// non-empty directory among the partition names `partitions`.
#[verifier::loop_isolation(false)]
pub fn has_meaningful_content(fs: &Snapshot, base: &AbsPath, partitions: &Vec<Name>) -> (r: bool)
    ensures
        r == exists|i: int|
            0 <= i < partitions.deep_view().len() && spec_node_exists(
                fs.entries@,
                base.deep_view().push(partitions.deep_view()[i]),
            ) && child_indices_from(
                fs.entries@,
                base.deep_view().push(partitions.deep_view()[i]),
                0,
            ).len() > 0,
{
    let n = partitions.len();
    let mut i: usize = 0;
    while i < n
        invariant
            i <= n,
            n == partitions@.len(),
            forall|j: int|
                0 <= j < i ==> !(spec_node_exists(
                    fs.entries@,
                    base.deep_view().push(#[trigger] partitions.deep_view()[j]),
                ) && child_indices_from(
                    fs.entries@,
                    base.deep_view().push(partitions.deep_view()[j]),
                    0,
                ).len() > 0),
        decreases n - i,
    {
        proof {
            lemma_path_deep_view_index(*partitions, i as int);
        }
        let p = path_push(base, &partitions[i]);
        if fs.node_exists(&p) && has_files(fs, &p) {
            proof {
                assert(spec_node_exists(
                    fs.entries@,
                    base.deep_view().push(partitions.deep_view()[i as int]),
                ) && child_indices_from(
                    fs.entries@,
                    base.deep_view().push(partitions.deep_view()[i as int]),
                    0,
                ).len() > 0);
            }
            return true;
        }
        i += 1;
    }
    proof {
        if partitions@.len() > 0 {
            lemma_path_deep_view_index(*partitions, 0);
        } else {
            assert(partitions.deep_view() =~= Seq::<Seq<u8>>::empty());
        }
    }
    false
}

/// Computes the mount plan for `modules`, in caller-supplied
/// precedence order, against the filesystem snapshot `fs`.
///
/// The result is exactly the plan that the specification-level scan
/// describes: the emitted operations are the accumulator rows whose
/// canonical target is an existing directory (with the partition
/// label inferred as the target's first component), the
/// participating and fallback identifier sets are sorted into
/// byte-lexicographic order, and the fallback content roots are kept
/// in first-contribution order.
#[verifier::loop_isolation(false)]
pub fn generate(
    fs: &Snapshot,
    config: &PlanConfig,
    modules: &Vec<Module>,
    storage_root: &AbsPath,
) -> (r: MountPlan)
    ensures
        ({
            let allowed = builtin_partitions() + config.extra_partitions.deep_view();
            let st = scan_modules(
                fs.entries@,
                allowed,
                storage_root.deep_view(),
                modules@,
                modules@.len() as int,
            );
            &&& ops_view(r.overlay_ops@) == emit_ops(fs.entries@, st.acc, 0)
            &&& r.overlay_module_ids.deep_view() == crate::order::sort_names_spec(st.overlay_ids)
            &&& r.magic_module_ids.deep_view() == crate::order::sort_names_spec(st.magic_ids)
            &&& r.magic_module_paths.deep_view() == st.magic_paths
        }),
{
    let ghost entries = fs.entries@;
    let ghost allowed_v = builtin_partitions() + config.extra_partitions.deep_view();
    let ghost sr_v = storage_root.deep_view();

    let mut allowed = make_builtin_partitions();
    let extra_n = config.extra_partitions.len();
    let mut e: usize = 0;
    proof {
        if config.extra_partitions@.len() > 0 {
            lemma_path_deep_view_index(config.extra_partitions, 0);
        } else {
            assert(config.extra_partitions.deep_view() =~= Seq::<Seq<u8>>::empty());
        }
        assert(builtin_partitions() + config.extra_partitions.deep_view().take(0)
            =~= builtin_partitions());
    }
    while e < extra_n
        invariant
            e <= extra_n,
            extra_n == config.extra_partitions@.len(),
            allowed.deep_view() == builtin_partitions()
                + config.extra_partitions.deep_view().take(e as int),
        decreases extra_n - e,
    {
        proof {
            lemma_path_deep_view_index(config.extra_partitions, e as int);
        }
        let x = clone_name(&config.extra_partitions[e]);
        push_id(&mut allowed, x);
        proof {
            assert(allowed.deep_view() =~= builtin_partitions()
                + config.extra_partitions.deep_view().take(e as int + 1));
        }
        e += 1;
    }
    proof {
        assert(config.extra_partitions.deep_view().take(extra_n as int)
            =~= config.extra_partitions.deep_view());
        assert(allowed.deep_view() == allowed_v);
    }

    let sensitive = make_sensitive_partitions();
    let mut acc: Vec<AccEntry> = Vec::new();
    let mut overlay_ids: Vec<Name> = Vec::new();
    let mut magic_ids: Vec<Name> = Vec::new();
    let mut magic_paths: Vec<AbsPath> = Vec::new();
    proof {
        assert(acc_view(acc@) =~= init_state().acc);
        assert(overlay_ids.deep_view() =~= init_state().overlay_ids);
        assert(magic_ids.deep_view() =~= init_state().magic_ids);
        assert(magic_paths.deep_view() =~= init_state().magic_paths);
    }

    let module_n = modules.len();
    let mut mi: usize = 0;
    while mi < module_n
        invariant
            mi <= module_n,
            module_n == modules@.len(),
            allowed.deep_view() == allowed_v,
            mk_state(
                acc_view(acc@),
                overlay_ids.deep_view(),
                magic_ids.deep_view(),
                magic_paths.deep_view(),
            ) == scan_modules(entries, allowed_v, sr_v, modules@, mi as int),
        decreases module_n - mi,
    {
        let ghost st0 = scan_modules(entries, allowed_v, sr_v, modules@, mi as int);
        proof {
            lemma_scan_modules_unfold(entries, allowed_v, sr_v, modules@, mi as int + 1);
        }
        let m = &modules[mi];
        let staged = path_push(storage_root, &m.id);
        let staged_present = fs.node_exists(&staged);
        let source_present = fs.node_exists(&m.source_root);
        if staged_present || source_present {
            let root = if staged_present {
                staged
            } else {
                clone_path(&m.source_root)
            };
            let ghost root_v = root.deep_view();
            proof {
                assert(effective_root(entries, sr_v, modules@[mi as int]) == Some(root_v));
            }
            let kids = fs.children_of(&root);
            let ghost kseq = child_indices_from(entries, root_v, 0);
            let kid_n = kids.len();
            let mut k: usize = 0;
            proof {
                assert(to_int_seq(kids@).len() == kids@.len());
                assert forall|j: int| 0 <= j < kids@.len() implies kseq[j] == kids@[j] as int by {
                    assert(to_int_seq(kids@)[j] == kids@[j] as int);
                }
                assert(kseq.skip(0) =~= kseq);
            }
            while k < kid_n
                invariant
                    k <= kid_n,
                    kid_n == kids@.len(),
                    kseq.len() == kid_n,
                    forall|j: int| 0 <= j < kid_n ==> kseq[j] == kids@[j] as int,
                    scan_dirs(
                        entries,
                        allowed_v,
                        modules@[mi as int],
                        root_v,
                        kseq.skip(k as int),
                        mk_state(
                            acc_view(acc@),
                            overlay_ids.deep_view(),
                            magic_ids.deep_view(),
                            magic_paths.deep_view(),
                        ),
                    ) == scan_dirs(entries, allowed_v, modules@[mi as int], root_v, kseq, st0),
                decreases kid_n - k,
            {
                let ghost cur = mk_state(
                    acc_view(acc@),
                    overlay_ids.deep_view(),
                    magic_ids.deep_view(),
                    magic_paths.deep_view(),
                );
                let ghost ci_g = kseq[k as int];
                proof {
                    assert(kseq.skip(k as int)[0] == kseq[k as int]);
                    assert(kseq.skip(k as int).drop_first() =~= kseq.skip(k as int + 1));
                    lemma_scan_dirs_unfold(
                        entries,
                        allowed_v,
                        modules@[mi as int],
                        root_v,
                        kseq.skip(k as int),
                        cur,
                    );
                    assert(kids@[k as int] < fs.entries@.len());
                }
                let ci = kids[k];
                let e = &fs.entries[ci];
                proof {
                    assert(child_of(root_v, e.path.deep_view()));
                }
                let is_dir_kind = match &e.kind {
                    NodeKind::Dir => true,
                    _ => false,
                };
                if is_dir_kind {
                    proof {
                        lemma_path_deep_view_index(e.path, e.path@.len() - 1);
                    }
                    let nm = &e.path[e.path.len() - 1];
                    let ghost nm_v = e.path.deep_view().last();
                    proof {
                        assert(nm@ == nm_v);
                    }
                    if names_contain(&allowed, nm) {
                        match lookup_rule(&m.rules, nm) {
                            MountMode::Fallback => {
                                if !names_contain(&magic_ids, &m.id) {
                                    let idc = clone_name(&m.id);
                                    push_id(&mut magic_ids, idc);
                                    let rc = clone_path(&root);
                                    push_root_path(&mut magic_paths, rc);
                                }
                            },
                            MountMode::Ignore => {},
                            MountMode::Union => {
                                let seed_src = path_push(&root, nm);
                                let mut seed_tgt: Vec<Name> = Vec::new();
                                let nmc = clone_name(nm);
                                proof {
                                    lemma_name_deep_view(nmc);
                                }
                                seed_tgt.push(nmc);
                                proof {
                                    lemma_path_deep_view_eq(seed_tgt, seq![nm_v]);
                                }
                                let regs = decompose_item(
                                    fs,
                                    &seed_src,
                                    &seed_tgt,
                                    &sensitive,
                                    DEPTH_FUEL,
                                );
                                acc_apply_vec(&mut acc, &m.id, &regs);
                                proof {
                                    assert(regs_view(regs@).len() == regs@.len());
                                }
                                if regs.len() > 0 && !names_contain(&overlay_ids, &m.id) {
                                    let idc = clone_name(&m.id);
                                    push_id(&mut overlay_ids, idc);
                                }
                            },
                        }
                    }
                }
                proof {
                    assert(mk_state(
                        acc_view(acc@),
                        overlay_ids.deep_view(),
                        magic_ids.deep_view(),
                        magic_paths.deep_view(),
                    ) == scan_one_dir(entries, allowed_v, modules@[mi as int], root_v, ci_g, cur));
                }
                k += 1;
            }
            proof {
                assert(kseq.skip(kid_n as int).len() == 0);
            }
        }
        mi += 1;
    }

    let ghost st = scan_modules(entries, allowed_v, sr_v, modules@, module_n as int);

    let mut ops: Vec<OverlayOperation> = Vec::new();
    let ghost acc_v = acc_view(acc@);
    let acc_n = acc.len();
    let mut ai: usize = 0;
    proof {
        assert(ops_view(ops@) =~= Seq::<(
            Seq<Seq<u8>>,
            Seq<u8>,
            Seq<(Seq<u8>, Seq<Seq<u8>>)>,
        )>::empty());
        assert(acc_v.len() == acc@.len());
    }
    while ai < acc_n
        invariant
            ai <= acc_n,
            acc_n == acc@.len(),
            acc_view(acc@) == acc_v,
            emit_ops(entries, acc_v, 0) == ops_view(ops@) + emit_ops(entries, acc_v, ai as int),
        decreases acc_n - ai,
    {
        let ghost ov0 = ops_view(ops@);
        proof {
            lemma_emit_ops_unfold(entries, acc_v, ai as int);
            assert(acc_v[ai as int] == (
                acc@[ai as int].target.deep_view(),
                layers_view(acc@[ai as int].layers@),
            ));
        }
        let entry = &acc[ai];
        if entry.target.len() > 0 && fs.is_dir(&entry.target) {
            proof {
                lemma_path_deep_view_index(entry.target, 0);
            }
            let op = OverlayOperation {
                target: clone_path(&entry.target),
                partition: clone_name(&entry.target[0]),
                lowerdirs: clone_layers(&entry.layers),
            };
            ops.push(op);
            proof {
                assert(ops_view(ops@) =~= ov0.push(
                    (
                        acc@[ai as int].target.deep_view(),
                        acc@[ai as int].target.deep_view()[0],
                        layers_view(acc@[ai as int].layers@),
                    ),
                ));
                assert(ov0 + (seq![
                    (acc_v[ai as int].0, acc_v[ai as int].0[0], acc_v[ai as int].1),
                ] + emit_ops(entries, acc_v, ai as int + 1)) =~= ops_view(ops@) + emit_ops(
                    entries,
                    acc_v,
                    ai as int + 1,
                ));
            }
        } else {
            proof {
                if entry.target.len() == 0 {
                    assert(entry.target.deep_view() =~= Seq::<Seq<u8>>::empty());
                }
            }
        }
        ai += 1;
    }
    proof {
        lemma_emit_ops_end(entries, acc_v, acc_n as int);
        assert(ops_view(ops@) + Seq::<(
            Seq<Seq<u8>>,
            Seq<u8>,
            Seq<(Seq<u8>, Seq<Seq<u8>>)>,
        )>::empty() =~= ops_view(ops@));
    }

    let sorted_overlay = crate::order::sort_names(&overlay_ids);
    let sorted_magic = crate::order::sort_names(&magic_ids);
    MountPlan {
        overlay_ops: ops,
        magic_module_paths: magic_paths,
        overlay_module_ids: sorted_overlay,
        magic_module_ids: sorted_magic,
    }
}

/// A found index lies inside the accumulator.
pub proof fn lemma_acc_find_in_range(
    acc: Seq<(Seq<Seq<u8>>, Seq<(Seq<u8>, Seq<Seq<u8>>)>)>,
    tgt: Seq<Seq<u8>>,
)
    ensures
        acc_find(acc, tgt) >= 0 ==> 0 <= acc_find(acc, tgt) < acc.len() && acc[acc_find(
            acc,
            tgt,
        )].0 == tgt,
    decreases acc.len(),
{
    if acc.len() > 0 && acc[0].0 != tgt {
        lemma_acc_find_in_range(acc.drop_first(), tgt);
        if acc_find(acc, tgt) >= 0 {
            assert(acc.drop_first()[acc_find(acc.drop_first(), tgt)] == acc[acc_find(acc, tgt)]);
        }
    }
}

} // verus!
