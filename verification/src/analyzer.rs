//! The conflict and diagnostic analyzer: walks a completed
//! [`MountPlan`](crate::planner::MountPlan), reports every relative
//! file path that more than one module supplies to the same union
//! target, and flags structurally dangerous symlinks. Each operation
//! is analyzed independently; the per-operation results are then
//! concatenated, and the merged conflict list is sorted by partition
//! and relative path for deterministic output.

use crate::fs_model::{
    child_indices_from, clone_name, clone_path, lemma_name_deep_view, lemma_path_deep_view_eq,
    lemma_path_deep_view_index, path_concat, path_push, spec_canonical, spec_node_exists,
    to_int_seq, AbsPath, Name, NodeKind, Snapshot,
};
use crate::planner::{layers_view, lemma_paths_deep_view_index, ops_view, OverlayOperation};
use vstd::multiset::Multiset;
use vstd::prelude::*;

verus! {

/// How serious a diagnostic finding is.
pub enum Severity {
    Warning,
    Critical,
}

/// What a diagnostic finding is about.
pub enum IssueKind {
    /// A union target recorded in the plan no longer exists.
    MissingTarget,
    /// A symlink inside a layer points at an absolute path that does
    /// not currently exist.
    DeadSymlink,
}

/// One diagnostic finding: its severity and kind, the context it
/// belongs to (the partition label for a missing target, the owning
/// module identifier for a dead symlink), and the offending path.
pub struct DiagnosticIssue {
    pub severity: Severity,
    pub kind: IssueKind,
    pub context: Name,
    pub path: AbsPath,
}

/// One conflict: a relative path below a union target that more than
/// one module supplies as a regular file.
pub struct ConflictEntry {
    pub partition: Name,
    pub relative_path: AbsPath,
    pub module_ids: Vec<Name>,
}

/// The analyzer's output: all conflicts, sorted by partition and
/// relative path, and all diagnostics in per-operation order.
pub struct AnalysisReport {
    pub conflicts: Vec<ConflictEntry>,
    pub diagnostics: Vec<DiagnosticIssue>,
}

/// How deep a layer walk may descend before giving up on a branch.
pub const WALK_FUEL: u32 = 64;

/// The result of walking one subtree: the relative paths of the
/// regular files in it, and the absolute paths of its dead absolute
/// symlinks, both in table order.
pub struct WalkOut {
    pub files: Seq<Seq<Seq<u8>>>,
    pub dead: Seq<Seq<Seq<u8>>>,
}

/// Whether a symlink destination counts as dead: only absolute
/// destinations are judged, and one is dead when it cannot be
/// resolved or resolves to a path the snapshot does not hold.
pub open spec fn dest_is_dead(entries: Seq<crate::fs_model::FsEntry>, dest: Seq<Seq<u8>>) -> bool {
    match spec_canonical(entries, dest) {
        None => true,
        Some(c) => !spec_node_exists(entries, c),
    }
}

/// The walk of the subtree of `base` at the relative position `rel`.
pub open spec fn spec_walk(
    entries: Seq<crate::fs_model::FsEntry>,
    base: Seq<Seq<u8>>,
    rel: Seq<Seq<u8>>,
    fuel: nat,
) -> WalkOut
    decreases fuel, 1nat, 0nat,
{
    spec_walk_kids(entries, base, rel, child_indices_from(entries, base + rel, 0), fuel)
}

/// The walk of the children `kids` of `base + rel`: a regular file is
/// recorded under its relative path, a directory is descended into
/// while `fuel` lasts, and a dead absolute symlink is recorded under
/// its absolute path.
pub open spec fn spec_walk_kids(
    entries: Seq<crate::fs_model::FsEntry>,
    base: Seq<Seq<u8>>,
    rel: Seq<Seq<u8>>,
    kids: Seq<int>,
    fuel: nat,
) -> WalkOut
    decreases fuel, 0nat, kids.len(),
{
    if kids.len() == 0 {
        WalkOut { files: Seq::empty(), dead: Seq::empty() }
    } else {
        let ci = kids[0];
        let head: WalkOut = if 0 <= ci < entries.len() && entries[ci].path.deep_view().len() > 0 {
            let nm = entries[ci].path.deep_view().last();
            match entries[ci].kind {
                NodeKind::Dir => {
                    if fuel == 0 {
                        WalkOut { files: Seq::empty(), dead: Seq::empty() }
                    } else {
                        spec_walk(entries, base, rel.push(nm), (fuel - 1) as nat)
                    }
                },
                NodeKind::File => WalkOut { files: seq![rel.push(nm)], dead: Seq::empty() },
                NodeKind::Symlink { absolute, dest } => {
                    if absolute && dest_is_dead(entries, dest.deep_view()) {
                        WalkOut { files: Seq::empty(), dead: seq![(base + rel).push(nm)] }
                    } else {
                        WalkOut { files: Seq::empty(), dead: Seq::empty() }
                    }
                },
            }
        } else {
            WalkOut { files: Seq::empty(), dead: Seq::empty() }
        };
        let rest = spec_walk_kids(entries, base, rel, kids.drop_first(), fuel);
        WalkOut { files: head.files + rest.files, dead: head.dead + rest.dead }
    }
}

/// One unfolding step of `spec_walk`.
pub proof fn lemma_spec_walk_unfold(
    entries: Seq<crate::fs_model::FsEntry>,
    base: Seq<Seq<u8>>,
    rel: Seq<Seq<u8>>,
    fuel: nat,
)
    ensures
        spec_walk(entries, base, rel, fuel) == spec_walk_kids(
            entries,
            base,
            rel,
            child_indices_from(entries, base + rel, 0),
            fuel,
        ),
{
}

/// One unfolding step of `spec_walk_kids`.
pub proof fn lemma_walk_kids_unfold(
    entries: Seq<crate::fs_model::FsEntry>,
    base: Seq<Seq<u8>>,
    rel: Seq<Seq<u8>>,
    kids: Seq<int>,
    fuel: nat,
)
    requires
        kids.len() > 0,
    ensures
        ({
            let head: WalkOut = if 0 <= kids[0] < entries.len() && entries[
                kids[0]
            ].path.deep_view().len() > 0 {
                let nm = entries[kids[0]].path.deep_view().last();
                match entries[kids[0]].kind {
                    NodeKind::Dir => {
                        if fuel == 0 {
                            WalkOut { files: Seq::empty(), dead: Seq::empty() }
                        } else {
                            spec_walk(entries, base, rel.push(nm), (fuel - 1) as nat)
                        }
                    },
                    NodeKind::File => WalkOut { files: seq![rel.push(nm)], dead: Seq::empty() },
                    NodeKind::Symlink { absolute, dest } => {
                        if absolute && dest_is_dead(entries, dest.deep_view()) {
                            WalkOut { files: Seq::empty(), dead: seq![(base + rel).push(nm)] }
                        } else {
                            WalkOut { files: Seq::empty(), dead: Seq::empty() }
                        }
                    },
                }
            } else {
                WalkOut { files: Seq::empty(), dead: Seq::empty() }
            };
            let rest = spec_walk_kids(entries, base, rel, kids.drop_first(), fuel);
            spec_walk_kids(entries, base, rel, kids, fuel) == (WalkOut {
                files: head.files + rest.files,
                dead: head.dead + rest.dead,
            })
        }),
{
}

/// Past the last child nothing is collected.
pub proof fn lemma_walk_kids_end(
    entries: Seq<crate::fs_model::FsEntry>,
    base: Seq<Seq<u8>>,
    rel: Seq<Seq<u8>>,
    kids: Seq<int>,
    fuel: nat,
)
    requires
        kids.len() == 0,
    ensures
        spec_walk_kids(entries, base, rel, kids, fuel) == (WalkOut {
            files: Seq::empty(),
            dead: Seq::empty(),
        }),
{
}

/// Walks the subtree of `base` at `rel`, appending the relative
/// paths of its regular files to `files` and the absolute paths of
/// its dead absolute symlinks to `dead`; see [`spec_walk`].
#[verifier::loop_isolation(false)]
pub fn walk_layer(
    fs: &Snapshot,
    base: &AbsPath,
    rel: &AbsPath,
    fuel: u32,
    files: &mut Vec<AbsPath>,
    dead: &mut Vec<AbsPath>,
)
    ensures
        final(files).deep_view() == old(files).deep_view() + spec_walk(
            fs.entries@,
            base.deep_view(),
            rel.deep_view(),
            fuel as nat,
        ).files,
        final(dead).deep_view() == old(dead).deep_view() + spec_walk(
            fs.entries@,
            base.deep_view(),
            rel.deep_view(),
            fuel as nat,
        ).dead,
    decreases fuel, 1nat, 0nat,
{
    let ghost entries = fs.entries@;
    let ghost f0 = files.deep_view();
    let ghost d0 = dead.deep_view();
    let cur = path_concat(base, rel);
    let kids = fs.children_of(&cur);
    let ghost kseq = child_indices_from(entries, base.deep_view() + rel.deep_view(), 0);
    let kid_n = kids.len();
    let mut k: usize = 0;
    proof {
        lemma_spec_walk_unfold(entries, base.deep_view(), rel.deep_view(), fuel as nat);
        assert(to_int_seq(kids@).len() == kids@.len());
        assert forall|j: int| 0 <= j < kids@.len() implies kseq[j] == kids@[j] as int by {
            assert(to_int_seq(kids@)[j] == kids@[j] as int);
        }
        assert(kseq.skip(0) =~= kseq);
    }
    while k < kid_n
        invariant
            k <= kid_n,
            kid_n == kids@.len(),
            kseq.len() == kid_n,
            forall|j: int| 0 <= j < kid_n ==> kseq[j] == kids@[j] as int,
            f0 + spec_walk_kids(entries, base.deep_view(), rel.deep_view(), kseq, fuel as nat).files
                == files.deep_view() + spec_walk_kids(
                entries,
                base.deep_view(),
                rel.deep_view(),
                kseq.skip(k as int),
                fuel as nat,
            ).files,
            d0 + spec_walk_kids(entries, base.deep_view(), rel.deep_view(), kseq, fuel as nat).dead
                == dead.deep_view() + spec_walk_kids(
                entries,
                base.deep_view(),
                rel.deep_view(),
                kseq.skip(k as int),
                fuel as nat,
            ).dead,
        decreases kid_n - k,
    {
        let ghost fv = files.deep_view();
        let ghost dv = dead.deep_view();
        proof {
            assert(kseq.skip(k as int)[0] == kseq[k as int]);
            assert(kseq.skip(k as int).drop_first() =~= kseq.skip(k as int + 1));
            lemma_walk_kids_unfold(
                entries,
                base.deep_view(),
                rel.deep_view(),
                kseq.skip(k as int),
                fuel as nat,
            );
            assert(kids@[k as int] < fs.entries@.len());
        }
        let ci = kids[k];
        let e = &fs.entries[ci];
        proof {
            assert(crate::fs_model::child_of(
                base.deep_view() + rel.deep_view(),
                e.path.deep_view(),
            ));
            lemma_path_deep_view_index(e.path, e.path@.len() - 1);
        }
        let nm = &e.path[e.path.len() - 1];
        let ghost nm_v = e.path.deep_view().last();
        match &e.kind {
            NodeKind::Dir => {
                if fuel > 0 {
                    let child_rel = path_push(rel, nm);
                    walk_layer(fs, base, &child_rel, fuel - 1, files, dead);
                }
            },
            NodeKind::File => {
                let p = path_push(rel, nm);
                crate::planner::push_root_path(files, p);
                proof {
                    assert(files.deep_view() =~= fv + seq![rel.deep_view().push(nm_v)]);
                }
            },
            NodeKind::Symlink { absolute, dest } => {
                if *absolute {
                    let dc = clone_path(dest);
                    let is_dead = match fs.canonicalize(&dc) {
                        None => true,
                        Some(c) => !fs.node_exists(&c),
                    };
                    if is_dead {
                        let p = path_push(&cur, nm);
                        crate::planner::push_root_path(dead, p);
                        proof {
                            assert(dead.deep_view() =~= dv + seq![
                                (base.deep_view() + rel.deep_view()).push(nm_v),
                            ]);
                        }
                    }
                }
            },
        }
        proof {
            let head_rest = spec_walk_kids(
                entries,
                base.deep_view(),
                rel.deep_view(),
                kseq.skip(k as int),
                fuel as nat,
            );
            let rest = spec_walk_kids(
                entries,
                base.deep_view(),
                rel.deep_view(),
                kseq.skip(k as int + 1),
                fuel as nat,
            );
            assert(fv + head_rest.files =~= (files.deep_view()) + rest.files);
            assert(dv + head_rest.dead =~= (dead.deep_view()) + rest.dead);
        }
        k += 1;
    }
    proof {
        assert(kseq.skip(kid_n as int).len() == 0);
        lemma_walk_kids_end(
            entries,
            base.deep_view(),
            rel.deep_view(),
            kseq.skip(kid_n as int),
            fuel as nat,
        );
        assert(files.deep_view() + Seq::<Seq<Seq<u8>>>::empty() =~= files.deep_view());
        assert(dead.deep_view() + Seq::<Seq<Seq<u8>>>::empty() =~= dead.deep_view());
    }
}

/// One contributor row: a relative path and the identifiers of the
/// modules supplying a regular file there, in discovery order.
pub struct RowEntry {
    pub rel: AbsPath,
    pub ids: Vec<Name>,
}

/// The relative paths and contributor lists of the rows.
pub open spec fn rows_view(s: Seq<RowEntry>) -> Seq<(Seq<Seq<u8>>, Seq<Seq<u8>>)> {
    Seq::new(s.len(), |i: int| (s[i].rel.deep_view(), s[i].ids.deep_view()))
}

/// The index of the row for `rel`, or -1.
pub open spec fn row_find(rows: Seq<(Seq<Seq<u8>>, Seq<Seq<u8>>)>, rel: Seq<Seq<u8>>) -> int
    decreases rows.len(),
{
    if rows.len() == 0 {
        -1
    } else if rows[0].0 == rel {
        0
    } else {
        let r = row_find(rows.drop_first(), rel);
        if r < 0 {
            -1
        } else {
            r + 1
        }
    }
}

/// A row matching at `i`, with no earlier match, is the one found.
pub proof fn lemma_row_find_at(rows: Seq<(Seq<Seq<u8>>, Seq<Seq<u8>>)>, rel: Seq<Seq<u8>>, i: int)
    requires
        0 <= i < rows.len(),
        rows[i].0 == rel,
        forall|j: int| 0 <= j < i ==> (#[trigger] rows[j]).0 != rel,
    ensures
        row_find(rows, rel) == i,
    decreases i,
{
    if i > 0 {
        assert forall|j: int| 0 <= j < i - 1 implies (#[trigger] rows.drop_first()[j]).0 != rel by {
            assert(rows.drop_first()[j] == rows[j + 1]);
        }
        assert(rows.drop_first()[i - 1] == rows[i]);
        lemma_row_find_at(rows.drop_first(), rel, i - 1);
    }
}

/// With no matching row, nothing is found.
pub proof fn lemma_row_find_none(rows: Seq<(Seq<Seq<u8>>, Seq<Seq<u8>>)>, rel: Seq<Seq<u8>>)
    requires
        forall|j: int| 0 <= j < rows.len() ==> (#[trigger] rows[j]).0 != rel,
    ensures
        row_find(rows, rel) == -1,
    decreases rows.len(),
{
    if rows.len() > 0 {
        assert forall|j: int|
            0 <= j < rows.drop_first().len() implies (#[trigger] rows.drop_first()[j]).0 != rel by {
            assert(rows.drop_first()[j] == rows[j + 1]);
        }
        lemma_row_find_none(rows.drop_first(), rel);
    }
}

/// One file recorded: its module appended to the row of its relative
/// path, or a fresh row at the end.
pub open spec fn row_add(
    rows: Seq<(Seq<Seq<u8>>, Seq<Seq<u8>>)>,
    rel: Seq<Seq<u8>>,
    id: Seq<u8>,
) -> Seq<(Seq<Seq<u8>>, Seq<Seq<u8>>)> {
    let i = row_find(rows, rel);
    if i < 0 {
        rows.push((rel, seq![id]))
    } else {
        rows.update(i, (rows[i].0, rows[i].1.push(id)))
    }
}

/// All files of one layer recorded for the module `id`.
pub open spec fn rows_add_files(
    rows: Seq<(Seq<Seq<u8>>, Seq<Seq<u8>>)>,
    id: Seq<u8>,
    files: Seq<Seq<Seq<u8>>>,
) -> Seq<(Seq<Seq<u8>>, Seq<Seq<u8>>)>
    decreases files.len(),
{
    if files.len() == 0 {
        rows
    } else {
        rows_add_files(row_add(rows, files[0], id), id, files.drop_first())
    }
}

/// One unfolding step of `rows_add_files`.
pub proof fn lemma_rows_add_files_unfold(
    rows: Seq<(Seq<Seq<u8>>, Seq<Seq<u8>>)>,
    id: Seq<u8>,
    files: Seq<Seq<Seq<u8>>>,
)
    requires
        files.len() > 0,
    ensures
        rows_add_files(rows, id, files) == rows_add_files(
            row_add(rows, files[0], id),
            id,
            files.drop_first(),
        ),
{
}

/// The contributor rows of an operation's layers, walked in layer
/// order starting from `rows`.
pub open spec fn rows_of_layers(
    entries: Seq<crate::fs_model::FsEntry>,
    layers: Seq<(Seq<u8>, Seq<Seq<u8>>)>,
    rows: Seq<(Seq<Seq<u8>>, Seq<Seq<u8>>)>,
) -> Seq<(Seq<Seq<u8>>, Seq<Seq<u8>>)>
    decreases layers.len(),
{
    if layers.len() == 0 {
        rows
    } else {
        rows_of_layers(
            entries,
            layers.drop_first(),
            rows_add_files(
                rows,
                layers[0].0,
                spec_walk(entries, layers[0].1, Seq::empty(), WALK_FUEL as nat).files,
            ),
        )
    }
}

/// One unfolding step of `rows_of_layers`.
pub proof fn lemma_rows_of_layers_unfold(
    entries: Seq<crate::fs_model::FsEntry>,
    layers: Seq<(Seq<u8>, Seq<Seq<u8>>)>,
    rows: Seq<(Seq<Seq<u8>>, Seq<Seq<u8>>)>,
)
    requires
        layers.len() > 0,
    ensures
        rows_of_layers(entries, layers, rows) == rows_of_layers(
            entries,
            layers.drop_first(),
            rows_add_files(
                rows,
                layers[0].0,
                spec_walk(entries, layers[0].1, Seq::empty(), WALK_FUEL as nat).files,
            ),
        ),
{
}

/// The findings for the dead symlinks `dead`, each a Warning under
/// the identifier `id`.
pub open spec fn dead_issue_seq(id: Seq<u8>, dead: Seq<Seq<Seq<u8>>>) -> Seq<
    (Severity, IssueKind, Seq<u8>, Seq<Seq<u8>>),
> {
    Seq::new(dead.len(), |i: int| (Severity::Warning, IssueKind::DeadSymlink, id, dead[i]))
}

/// The dead-symlink findings of an operation's layers, in layer and
/// discovery order: one Warning per dead absolute symlink, under the
/// owning module's identifier.
pub open spec fn dead_issues_of_layers(
    entries: Seq<crate::fs_model::FsEntry>,
    layers: Seq<(Seq<u8>, Seq<Seq<u8>>)>,
) -> Seq<(Severity, IssueKind, Seq<u8>, Seq<Seq<u8>>)>
    decreases layers.len(),
{
    if layers.len() == 0 {
        Seq::empty()
    } else {
        dead_issue_seq(
            layers[0].0,
            spec_walk(entries, layers[0].1, Seq::empty(), WALK_FUEL as nat).dead,
        ) + dead_issues_of_layers(entries, layers.drop_first())
    }
}

/// One unfolding step of `dead_issues_of_layers`.
pub proof fn lemma_dead_issues_unfold(
    entries: Seq<crate::fs_model::FsEntry>,
    layers: Seq<(Seq<u8>, Seq<Seq<u8>>)>,
)
    requires
        layers.len() > 0,
    ensures
        dead_issues_of_layers(entries, layers) == dead_issue_seq(
            layers[0].0,
            spec_walk(entries, layers[0].1, Seq::empty(), WALK_FUEL as nat).dead,
        ) + dead_issues_of_layers(entries, layers.drop_first()),
{
}

/// The conflicts among the rows from `i` on: every row with more
/// than one contributor, under the operation's partition label.
pub open spec fn conflicts_of_rows(
    part: Seq<u8>,
    rows: Seq<(Seq<Seq<u8>>, Seq<Seq<u8>>)>,
    i: int,
) -> Seq<(Seq<u8>, Seq<Seq<u8>>, Seq<Seq<u8>>)>
    decreases rows.len() - i,
{
    if i < 0 || i >= rows.len() {
        Seq::empty()
    } else {
        let rest = conflicts_of_rows(part, rows, i + 1);
        if rows[i].1.len() >= 2 {
            seq![(part, rows[i].0, rows[i].1)] + rest
        } else {
            rest
        }
    }
}

/// One unfolding step of `conflicts_of_rows`.
pub proof fn lemma_conflicts_of_rows_unfold(
    part: Seq<u8>,
    rows: Seq<(Seq<Seq<u8>>, Seq<Seq<u8>>)>,
    i: int,
)
    requires
        0 <= i < rows.len(),
    ensures
        conflicts_of_rows(part, rows, i) == (if rows[i].1.len() >= 2 {
            seq![(part, rows[i].0, rows[i].1)] + conflicts_of_rows(part, rows, i + 1)
        } else {
            conflicts_of_rows(part, rows, i + 1)
        }),
{
}

/// The analysis of one operation: its conflicts (unsorted), and its
/// diagnostics — a Critical finding when the target no longer
/// exists, then the dead-symlink Warnings of its layers.
pub open spec fn analyze_op_spec(
    entries: Seq<crate::fs_model::FsEntry>,
    op: (Seq<Seq<u8>>, Seq<u8>, Seq<(Seq<u8>, Seq<Seq<u8>>)>),
) -> (Seq<(Seq<u8>, Seq<Seq<u8>>, Seq<Seq<u8>>)>, Seq<(Severity, IssueKind, Seq<u8>, Seq<Seq<u8>>)>) {
    let rows = rows_of_layers(entries, op.2, Seq::empty());
    let confs = conflicts_of_rows(op.1, rows, 0);
    let missing: Seq<(Severity, IssueKind, Seq<u8>, Seq<Seq<u8>>)> = if !spec_node_exists(
        entries,
        op.0,
    ) {
        seq![(Severity::Critical, IssueKind::MissingTarget, op.1, op.0)]
    } else {
        Seq::empty()
    };
    (confs, missing + dead_issues_of_layers(entries, op.2))
}

/// The concatenated analyses of the operations from `i` on.
pub open spec fn analyze_ops_spec(
    entries: Seq<crate::fs_model::FsEntry>,
    ops: Seq<(Seq<Seq<u8>>, Seq<u8>, Seq<(Seq<u8>, Seq<Seq<u8>>)>)>,
    i: int,
) -> (Seq<(Seq<u8>, Seq<Seq<u8>>, Seq<Seq<u8>>)>, Seq<(Severity, IssueKind, Seq<u8>, Seq<Seq<u8>>)>)
    decreases ops.len() - i,
{
    if i < 0 || i >= ops.len() {
        (Seq::empty(), Seq::empty())
    } else {
        let head = analyze_op_spec(entries, ops[i]);
        let rest = analyze_ops_spec(entries, ops, i + 1);
        (head.0 + rest.0, head.1 + rest.1)
    }
}

/// One unfolding step of `analyze_ops_spec`.
pub proof fn lemma_analyze_ops_unfold(
    entries: Seq<crate::fs_model::FsEntry>,
    ops: Seq<(Seq<Seq<u8>>, Seq<u8>, Seq<(Seq<u8>, Seq<Seq<u8>>)>)>,
    i: int,
)
    requires
        0 <= i < ops.len(),
    ensures
        analyze_ops_spec(entries, ops, i) == (
            analyze_op_spec(entries, ops[i]).0 + analyze_ops_spec(entries, ops, i + 1).0,
            analyze_op_spec(entries, ops[i]).1 + analyze_ops_spec(entries, ops, i + 1).1,
        ),
{
}

/// Strict order on conflict keys: by partition bytes, then by
/// relative path.
pub open spec fn conflict_key_lt(
    a: (Seq<u8>, Seq<Seq<u8>>, Seq<Seq<u8>>),
    b: (Seq<u8>, Seq<Seq<u8>>, Seq<Seq<u8>>),
) -> bool {
    crate::order::bytes_lt(a.0, b.0) || (a.0 == b.0 && crate::order::path_lt(a.1, b.1))
}

/// Equality of conflict keys.
pub open spec fn conflict_key_eq(
    a: (Seq<u8>, Seq<Seq<u8>>, Seq<Seq<u8>>),
    b: (Seq<u8>, Seq<Seq<u8>>, Seq<Seq<u8>>),
) -> bool {
    a.0 == b.0 && a.1 == b.1
}

/// Of `conflict_key_lt(a, b)`, key equality, `conflict_key_lt(b, a)`,
/// exactly one holds.
pub proof fn lemma_conflict_key_trichotomy(
    a: (Seq<u8>, Seq<Seq<u8>>, Seq<Seq<u8>>),
    b: (Seq<u8>, Seq<Seq<u8>>, Seq<Seq<u8>>),
)
    ensures
        conflict_key_lt(a, b) || conflict_key_eq(a, b) || conflict_key_lt(b, a),
        conflict_key_lt(a, b) ==> !conflict_key_eq(a, b) && !conflict_key_lt(b, a),
        conflict_key_eq(a, b) ==> !conflict_key_lt(a, b) && !conflict_key_lt(b, a),
{
    crate::order::lemma_bytes_lt_trichotomy(a.0, b.0);
    crate::order::lemma_path_lt_trichotomy(a.1, b.1);
}

/// Transitivity of the strict key order.
pub proof fn lemma_conflict_key_trans(
    a: (Seq<u8>, Seq<Seq<u8>>, Seq<Seq<u8>>),
    b: (Seq<u8>, Seq<Seq<u8>>, Seq<Seq<u8>>),
    c: (Seq<u8>, Seq<Seq<u8>>, Seq<Seq<u8>>),
)
    requires
        conflict_key_lt(a, b),
        conflict_key_lt(b, c),
    ensures
        conflict_key_lt(a, c),
{
    if crate::order::bytes_lt(a.0, b.0) && crate::order::bytes_lt(b.0, c.0) {
        crate::order::lemma_bytes_lt_trans(a.0, b.0, c.0);
    } else if a.0 == b.0 && b.0 == c.0 {
        crate::order::lemma_path_lt_trans(a.1, b.1, c.1);
    }
}

/// Keys pairwise in order.
pub open spec fn conflicts_sorted(s: Seq<(Seq<u8>, Seq<Seq<u8>>, Seq<Seq<u8>>)>) -> bool {
    forall|i: int, j: int|
        0 <= i < j < s.len() ==> conflict_key_lt(#[trigger] s[i], #[trigger] s[j])
            || conflict_key_eq(s[i], s[j])
}

/// `x` inserted before the first entry whose key it comes strictly
/// before.
pub open spec fn insert_conflict_sorted(
    x: (Seq<u8>, Seq<Seq<u8>>, Seq<Seq<u8>>),
    s: Seq<(Seq<u8>, Seq<Seq<u8>>, Seq<Seq<u8>>)>,
) -> Seq<(Seq<u8>, Seq<Seq<u8>>, Seq<Seq<u8>>)>
    decreases s.len(),
{
    if s.len() == 0 {
        seq![x]
    } else if conflict_key_lt(x, s[0]) {
        seq![x] + s
    } else {
        seq![s[0]] + insert_conflict_sorted(x, s.drop_first())
    }
}

/// Insertion sort of conflicts by partition and relative path.
pub open spec fn sort_conflicts_spec(s: Seq<(Seq<u8>, Seq<Seq<u8>>, Seq<Seq<u8>>)>) -> Seq<
    (Seq<u8>, Seq<Seq<u8>>, Seq<Seq<u8>>),
>
    decreases s.len(),
{
    if s.len() == 0 {
        s
    } else {
        insert_conflict_sorted(s[0], sort_conflicts_spec(s.drop_first()))
    }
}

/// One unfolding step of `sort_conflicts_spec`.
pub proof fn lemma_sort_conflicts_unfold(s: Seq<(Seq<u8>, Seq<Seq<u8>>, Seq<Seq<u8>>)>)
    requires
        s.len() > 0,
    ensures
        sort_conflicts_spec(s) == insert_conflict_sorted(s[0], sort_conflicts_spec(s.drop_first())),
{
}

/// Inserting keeps the key order and adds exactly the new entry.
pub proof fn lemma_insert_conflict_sorted(
    x: (Seq<u8>, Seq<Seq<u8>>, Seq<Seq<u8>>),
    s: Seq<(Seq<u8>, Seq<Seq<u8>>, Seq<Seq<u8>>)>,
)
    requires
        conflicts_sorted(s),
    ensures
        conflicts_sorted(insert_conflict_sorted(x, s)),
        insert_conflict_sorted(x, s).to_multiset() == s.to_multiset().insert(x),
        insert_conflict_sorted(x, s).len() == s.len() + 1,
    decreases s.len(),
{
    broadcast use vstd::seq_lib::group_to_multiset_ensures;

    let t = insert_conflict_sorted(x, s);
    if s.len() == 0 {
        assert(seq![x] =~= Seq::<(Seq<u8>, Seq<Seq<u8>>, Seq<Seq<u8>>)>::empty().push(x));
        assert(Seq::<(Seq<u8>, Seq<Seq<u8>>, Seq<Seq<u8>>)>::empty().to_multiset()
            =~= Multiset::<(Seq<u8>, Seq<Seq<u8>>, Seq<Seq<u8>>)>::empty());
        assert(s.to_multiset() =~= Multiset::<(Seq<u8>, Seq<Seq<u8>>, Seq<Seq<u8>>)>::empty());
        assert(t.to_multiset() =~= s.to_multiset().insert(x));
    } else if conflict_key_lt(x, s[0]) {
        assert(t =~= seq![x] + s);
        vstd::seq_lib::lemma_multiset_commutative(seq![x], s);
        assert(seq![x] =~= Seq::<(Seq<u8>, Seq<Seq<u8>>, Seq<Seq<u8>>)>::empty().push(x));
        assert(Seq::<(Seq<u8>, Seq<Seq<u8>>, Seq<Seq<u8>>)>::empty().to_multiset()
            =~= Multiset::<(Seq<u8>, Seq<Seq<u8>>, Seq<Seq<u8>>)>::empty());
        assert(t.to_multiset() =~= s.to_multiset().insert(x));
        assert forall|i: int, j: int|
            0 <= i < j < t.len() implies conflict_key_lt(#[trigger] t[i], #[trigger] t[j])
            || conflict_key_eq(t[i], t[j]) by {
            if i == 0 && j > 1 {
                if conflict_key_lt(s[0], s[j - 1]) {
                    lemma_conflict_key_trans(x, s[0], s[j - 1]);
                } else {
                    assert(conflict_key_eq(s[0], s[j - 1]));
                }
            }
        }
    } else {
        lemma_conflict_key_trichotomy(x, s[0]);
        let rest = insert_conflict_sorted(x, s.drop_first());
        assert forall|i: int, j: int|
            0 <= i < j < s.drop_first().len() implies conflict_key_lt(
            #[trigger] s.drop_first()[i],
            #[trigger] s.drop_first()[j],
        ) || conflict_key_eq(s.drop_first()[i], s.drop_first()[j]) by {
            assert(s.drop_first()[i] == s[i + 1]);
            assert(s.drop_first()[j] == s[j + 1]);
        }
        lemma_insert_conflict_sorted(x, s.drop_first());
        assert(t =~= seq![s[0]] + rest);
        vstd::seq_lib::lemma_multiset_commutative(seq![s[0]], rest);
        assert(seq![s[0]] =~= Seq::<(Seq<u8>, Seq<Seq<u8>>, Seq<Seq<u8>>)>::empty().push(s[0]));
        assert(Seq::<(Seq<u8>, Seq<Seq<u8>>, Seq<Seq<u8>>)>::empty().to_multiset()
            =~= Multiset::<(Seq<u8>, Seq<Seq<u8>>, Seq<Seq<u8>>)>::empty());
        assert(s.remove(0) =~= s.drop_first());
        assert(s.drop_first().to_multiset() == s.to_multiset().remove(s[0]));
        assert(s.to_multiset().contains(s[0]));
        assert(t.to_multiset() =~= s.to_multiset().insert(x));
        assert forall|i: int, j: int|
            0 <= i < j < t.len() implies conflict_key_lt(#[trigger] t[i], #[trigger] t[j])
            || conflict_key_eq(t[i], t[j]) by {
            if i == 0 {
                let y = t[j];
                assert(y == rest[j - 1]);
                assert(rest.to_multiset().contains(y));
                if y == x {
                    assert(conflict_key_lt(s[0], x) || conflict_key_eq(s[0], x));
                } else {
                    assert(s.drop_first().to_multiset().contains(y));
                    assert(s.drop_first().contains(y));
                    let w = choose|w: int|
                        0 <= w < s.drop_first().len() && s.drop_first()[w] == y;
                    assert(s[w + 1] == y);
                    assert(conflict_key_lt(s[0], s[w + 1]) || conflict_key_eq(s[0], s[w + 1]));
                }
            } else {
                assert(t[i] == rest[i - 1]);
                assert(t[j] == rest[j - 1]);
            }
        }
    }
}

/// Sorting keeps exactly the entries and orders their keys.
pub proof fn lemma_sort_conflicts_spec(s: Seq<(Seq<u8>, Seq<Seq<u8>>, Seq<Seq<u8>>)>)
    ensures
        conflicts_sorted(sort_conflicts_spec(s)),
        sort_conflicts_spec(s).to_multiset() == s.to_multiset(),
        sort_conflicts_spec(s).len() == s.len(),
    decreases s.len(),
{
    broadcast use vstd::seq_lib::group_to_multiset_ensures;

    if s.len() > 0 {
        lemma_sort_conflicts_spec(s.drop_first());
        lemma_insert_conflict_sorted(s[0], sort_conflicts_spec(s.drop_first()));
        assert(s.remove(0) =~= s.drop_first());
        assert(s.drop_first().to_multiset() == s.to_multiset().remove(s[0]));
        assert(s.to_multiset().contains(s[0]));
        assert(s.to_multiset().remove(s[0]).insert(s[0]) =~= s.to_multiset());
    }
}

/// Where the position-based insertion lands in the recursive form.
pub proof fn lemma_insert_conflict_at(
    x: (Seq<u8>, Seq<Seq<u8>>, Seq<Seq<u8>>),
    s: Seq<(Seq<u8>, Seq<Seq<u8>>, Seq<Seq<u8>>)>,
    k: int,
)
    requires
        0 <= k <= s.len(),
        forall|j: int| 0 <= j < k ==> !conflict_key_lt(x, #[trigger] s[j]),
        k < s.len() ==> conflict_key_lt(x, s[k]),
    ensures
        insert_conflict_sorted(x, s) == s.take(k) + seq![x] + s.skip(k),
    decreases s.len(),
{
    if s.len() == 0 {
        assert(insert_conflict_sorted(x, s) =~= s.take(k) + seq![x] + s.skip(k));
    } else if k == 0 {
        assert(conflict_key_lt(x, s[0]));
        assert(insert_conflict_sorted(x, s) =~= s.take(0) + seq![x] + s.skip(0));
    } else {
        assert(!conflict_key_lt(x, s[0]));
        assert forall|j: int|
            0 <= j < k - 1 implies !conflict_key_lt(x, #[trigger] s.drop_first()[j]) by {
            assert(s.drop_first()[j] == s[j + 1]);
        }
        if k - 1 < s.drop_first().len() {
            assert(s.drop_first()[k - 1] == s[k]);
        }
        lemma_insert_conflict_at(x, s.drop_first(), k - 1);
        assert(seq![s[0]] + (s.drop_first().take(k - 1) + seq![x] + s.drop_first().skip(k - 1))
            =~= s.take(k) + seq![x] + s.skip(k));
    }
}

/// The key and contributors of one conflict entry.
pub open spec fn conflict_view1(c: ConflictEntry) -> (Seq<u8>, Seq<Seq<u8>>, Seq<Seq<u8>>) {
    (c.partition@, c.relative_path.deep_view(), c.module_ids.deep_view())
}

/// The keys and contributors of a conflict list.
pub open spec fn conflicts_view(s: Seq<ConflictEntry>) -> Seq<(Seq<u8>, Seq<Seq<u8>>, Seq<Seq<u8>>)> {
    Seq::new(s.len(), |i: int| conflict_view1(s[i]))
}

/// The fields of a diagnostic list.
pub open spec fn issues_view(s: Seq<DiagnosticIssue>) -> Seq<
    (Severity, IssueKind, Seq<u8>, Seq<Seq<u8>>),
> {
    Seq::new(s.len(), |i: int| (s[i].severity, s[i].kind, s[i].context@, s[i].path.deep_view()))
}

/// Records one file of the module `id`; see [`row_add`].
#[verifier::loop_isolation(false)]
pub fn row_add_vec(rows: &mut Vec<RowEntry>, rel: &AbsPath, id: &Name)
    ensures
        rows_view(final(rows)@) == row_add(rows_view(old(rows)@), rel.deep_view(), id@),
{
    let ghost rv = rows_view(rows@);
    let n = rows.len();
    let mut i: usize = 0;
    while i < n
        invariant
            i <= n,
            n == rows@.len(),
            rows_view(rows@) == rv,
            forall|j: int| 0 <= j < i ==> (#[trigger] rv[j]).0 != rel.deep_view(),
        decreases n - i,
    {
        proof {
            assert(rows_view(rows@)[i as int] == (
                rows@[i as int].rel.deep_view(),
                rows@[i as int].ids.deep_view(),
            ));
        }
        if crate::fs_model::path_eq(&rows[i].rel, rel) {
            proof {
                assert(rv[i as int].0 == rel.deep_view());
                lemma_row_find_at(rv, rel.deep_view(), i as int);
            }
            let mut ids = clone_path(&rows[i].ids);
            let ghost iv = ids.deep_view();
            let idc = clone_name(id);
            crate::planner::push_id(&mut ids, idc);
            let entry = RowEntry { rel: clone_path(&rows[i].rel), ids };
            rows.set(i, entry);
            proof {
                assert(rows_view(rows@) =~= row_add(rv, rel.deep_view(), id@));
            }
            return ;
        }
        proof {
            assert(rv[i as int].0 != rel.deep_view());
        }
        i += 1;
    }
    proof {
        lemma_row_find_none(rv, rel.deep_view());
    }
    let mut ids: Vec<Name> = Vec::new();
    let idc = clone_name(id);
    proof {
        lemma_name_deep_view(idc);
        assert(ids.deep_view() =~= Seq::<Seq<u8>>::empty());
    }
    ids.push(idc);
    proof {
        lemma_path_deep_view_eq(ids, seq![id@]);
    }
    let entry = RowEntry { rel: clone_path(rel), ids };
    rows.push(entry);
    proof {
        assert(rows_view(rows@) =~= row_add(rv, rel.deep_view(), id@));
    }
}

/// Copy of a conflict entry.
pub fn clone_conflict(c: &ConflictEntry) -> (r: ConflictEntry)
    ensures
        conflict_view1(r) == conflict_view1(*c),
{
    ConflictEntry {
        partition: clone_name(&c.partition),
        relative_path: clone_path(&c.relative_path),
        module_ids: clone_path(&c.module_ids),
    }
}

/// Analyzes one operation, appending its conflicts (unsorted) and
/// its diagnostics; see [`analyze_op_spec`].
#[verifier::loop_isolation(false)]
pub fn analyze_op(
    fs: &Snapshot,
    op: &OverlayOperation,
    conflicts: &mut Vec<ConflictEntry>,
    diagnostics: &mut Vec<DiagnosticIssue>,
)
    ensures
        ({
            let out = analyze_op_spec(
                fs.entries@,
                (op.target.deep_view(), op.partition@, layers_view(op.lowerdirs@)),
            );
            &&& conflicts_view(final(conflicts)@) == conflicts_view(old(conflicts)@) + out.0
            &&& issues_view(final(diagnostics)@) == issues_view(old(diagnostics)@) + out.1
        }),
{
    let ghost entries = fs.entries@;
    let ghost lv = layers_view(op.lowerdirs@);
    let ghost c0 = conflicts_view(conflicts@);
    let ghost d0 = issues_view(diagnostics@);

    if !fs.node_exists(&op.target) {
        let issue = DiagnosticIssue {
            severity: Severity::Critical,
            kind: IssueKind::MissingTarget,
            context: clone_name(&op.partition),
            path: clone_path(&op.target),
        };
        diagnostics.push(issue);
        proof {
            assert(issues_view(diagnostics@) =~= d0 + seq![
                (Severity::Critical, IssueKind::MissingTarget, op.partition@, op.target.deep_view()),
            ]);
        }
    } else {
        proof {
            assert(d0 + Seq::<(Severity, IssueKind, Seq<u8>, Seq<Seq<u8>>)>::empty() =~= d0);
        }
    }
    let ghost d1 = issues_view(diagnostics@);

    let mut rows: Vec<RowEntry> = Vec::new();
    let layer_n = op.lowerdirs.len();
    let mut li: usize = 0;
    proof {
        assert(rows_view(rows@) =~= Seq::<(Seq<Seq<u8>>, Seq<Seq<u8>>)>::empty());
        assert(lv.skip(0) =~= lv);
    }
    while li < layer_n
        invariant
            li <= layer_n,
            layer_n == op.lowerdirs@.len(),
            rows_of_layers(entries, lv.skip(li as int), rows_view(rows@)) == rows_of_layers(
                entries,
                lv,
                Seq::empty(),
            ),
            d1 + dead_issues_of_layers(entries, lv) == issues_view(diagnostics@)
                + dead_issues_of_layers(entries, lv.skip(li as int)),
        decreases layer_n - li,
    {
        let ghost rows0 = rows_view(rows@);
        let ghost dv = issues_view(diagnostics@);
        proof {
            assert(lv.skip(li as int)[0] == lv[li as int]);
            assert(lv.skip(li as int).drop_first() =~= lv.skip(li as int + 1));
            assert(lv[li as int] == (
                op.lowerdirs@[li as int].module_id@,
                op.lowerdirs@[li as int].source.deep_view(),
            ));
            lemma_rows_of_layers_unfold(entries, lv.skip(li as int), rows0);
            lemma_dead_issues_unfold(entries, lv.skip(li as int));
        }
        let layer = &op.lowerdirs[li];
        let mut files: Vec<AbsPath> = Vec::new();
        let mut dead: Vec<AbsPath> = Vec::new();
        let empty_rel: Vec<Name> = Vec::new();
        proof {
            assert(files.deep_view() =~= Seq::<Seq<Seq<u8>>>::empty());
            assert(dead.deep_view() =~= Seq::<Seq<Seq<u8>>>::empty());
            assert(empty_rel.deep_view() =~= Seq::<Seq<u8>>::empty());
        }
        walk_layer(fs, &layer.source, &empty_rel, WALK_FUEL, &mut files, &mut dead);
        let ghost wout = spec_walk(entries, lv[li as int].1, Seq::empty(), WALK_FUEL as nat);
        proof {
            assert(Seq::<Seq<Seq<u8>>>::empty() + wout.files =~= wout.files);
            assert(Seq::<Seq<Seq<u8>>>::empty() + wout.dead =~= wout.dead);
            assert(files.deep_view() == wout.files);
            assert(dead.deep_view() == wout.dead);
        }
        let file_n = files.len();
        let mut fi: usize = 0;
        proof {
            assert(files.deep_view().len() == files@.len());
            assert(wout.files.skip(0) =~= wout.files);
        }
        while fi < file_n
            invariant
                fi <= file_n,
                file_n == files@.len(),
                files.deep_view() == wout.files,
                rows_add_files(rows_view(rows@), lv[li as int].0, wout.files.skip(fi as int))
                    == rows_add_files(rows0, lv[li as int].0, wout.files),
            decreases file_n - fi,
        {
            proof {
                assert(wout.files.skip(fi as int)[0] == wout.files[fi as int]);
                assert(wout.files.skip(fi as int).drop_first() =~= wout.files.skip(fi as int + 1));
                lemma_rows_add_files_unfold(
                    rows_view(rows@),
                    lv[li as int].0,
                    wout.files.skip(fi as int),
                );
                lemma_paths_deep_view_index(files, fi as int);
            }
            row_add_vec(&mut rows, &files[fi], &layer.module_id);
            fi += 1;
        }
        proof {
            assert(wout.files.skip(file_n as int).len() == 0);
        }
        let dead_n = dead.len();
        let mut di: usize = 0;
        let ghost dv1 = issues_view(diagnostics@);
        proof {
            assert(dead.deep_view().len() == dead@.len());
        }
        while di < dead_n
            invariant
                di <= dead_n,
                dead_n == dead@.len(),
                dead.deep_view() == wout.dead,
                issues_view(diagnostics@) == dv1 + dead_issue_seq(
                    lv[li as int].0,
                    wout.dead.take(di as int),
                ),
            decreases dead_n - di,
        {
            proof {
                lemma_paths_deep_view_index(dead, di as int);
            }
            let ghost dpre = diagnostics@;
            let ghost mid = lv[li as int].0;
            let issue = DiagnosticIssue {
                severity: Severity::Warning,
                kind: IssueKind::DeadSymlink,
                context: clone_name(&layer.module_id),
                path: clone_path(&dead[di]),
            };
            diagnostics.push(issue);
            proof {
                let full = dv1 + dead_issue_seq(mid, wout.dead.take(di as int + 1));
                assert forall|k: int|
                    0 <= k < issues_view(diagnostics@).len() implies issues_view(
                    diagnostics@,
                )[k] == full[k] by {
                    assert(issues_view(diagnostics@)[k] == (
                        diagnostics@[k].severity,
                        diagnostics@[k].kind,
                        diagnostics@[k].context@,
                        diagnostics@[k].path.deep_view(),
                    ));
                    if k < dpre.len() {
                        assert(diagnostics@[k] == dpre[k]);
                        assert(issues_view(dpre)[k] == (
                            dpre[k].severity,
                            dpre[k].kind,
                            dpre[k].context@,
                            dpre[k].path.deep_view(),
                        ));
                        assert(issues_view(dpre)[k] == (dv1 + dead_issue_seq(
                            mid,
                            wout.dead.take(di as int),
                        ))[k]);
                        if k >= dv1.len() {
                            assert(dead_issue_seq(mid, wout.dead.take(di as int))[k - dv1.len()]
                                == (
                                Severity::Warning,
                                IssueKind::DeadSymlink,
                                mid,
                                wout.dead.take(di as int)[k - dv1.len()],
                            ));
                            assert(dead_issue_seq(mid, wout.dead.take(di as int + 1))[k
                                - dv1.len()] == (
                                Severity::Warning,
                                IssueKind::DeadSymlink,
                                mid,
                                wout.dead.take(di as int + 1)[k - dv1.len()],
                            ));
                        }
                    } else {
                        assert(diagnostics@[k] == issue);
                        assert(dead_issue_seq(mid, wout.dead.take(di as int + 1))[k - dv1.len()]
                            == (
                            Severity::Warning,
                            IssueKind::DeadSymlink,
                            mid,
                            wout.dead.take(di as int + 1)[k - dv1.len()],
                        ));
                    }
                }
                assert(issues_view(diagnostics@).len() == dpre.len() + 1);
                assert(issues_view(diagnostics@) =~= full);
            }
            di += 1;
        }
        proof {
            assert(wout.dead.take(dead_n as int) =~= wout.dead);
            assert(dv + (dead_issue_seq(lv[li as int].0, wout.dead) + dead_issues_of_layers(
                entries,
                lv.skip(li as int + 1),
            )) =~= (dv + dead_issue_seq(lv[li as int].0, wout.dead)) + dead_issues_of_layers(
                entries,
                lv.skip(li as int + 1),
            ));
        }
        li += 1;
    }
    proof {
        assert(lv.skip(layer_n as int).len() == 0);
        assert(issues_view(diagnostics@) + Seq::<(
            Severity,
            IssueKind,
            Seq<u8>,
            Seq<Seq<u8>>,
        )>::empty() =~= issues_view(diagnostics@));
    }
    let ghost rowsv = rows_view(rows@);

    let row_n = rows.len();
    let mut ri: usize = 0;
    proof {
        assert(rowsv.len() == rows@.len());
        assert(c0 + Seq::<(Seq<u8>, Seq<Seq<u8>>, Seq<Seq<u8>>)>::empty() =~= c0);
    }
    while ri < row_n
        invariant
            ri <= row_n,
            row_n == rows@.len(),
            rows_view(rows@) == rowsv,
            c0 + conflicts_of_rows(op.partition@, rowsv, 0) == conflicts_view(conflicts@)
                + conflicts_of_rows(op.partition@, rowsv, ri as int),
        decreases row_n - ri,
    {
        let ghost cprev = conflicts_view(conflicts@);
        proof {
            lemma_conflicts_of_rows_unfold(op.partition@, rowsv, ri as int);
            assert(rowsv[ri as int] == (
                rows@[ri as int].rel.deep_view(),
                rows@[ri as int].ids.deep_view(),
            ));
            assert(rows@[ri as int].ids.deep_view().len() == rows@[ri as int].ids@.len());
        }
        let row = &rows[ri];
        if row.ids.len() >= 2 {
            let entry = ConflictEntry {
                partition: clone_name(&op.partition),
                relative_path: clone_path(&row.rel),
                module_ids: clone_path(&row.ids),
            };
            conflicts.push(entry);
            proof {
                assert(conflicts_view(conflicts@) =~= cprev.push(
                    (op.partition@, rowsv[ri as int].0, rowsv[ri as int].1),
                ));
                assert(cprev + (seq![(op.partition@, rowsv[ri as int].0, rowsv[ri as int].1)]
                    + conflicts_of_rows(op.partition@, rowsv, ri as int + 1)) =~= conflicts_view(
                    conflicts@,
                ) + conflicts_of_rows(op.partition@, rowsv, ri as int + 1));
            }
        }
        ri += 1;
    }
    proof {
        assert(conflicts_of_rows(op.partition@, rowsv, row_n as int) =~= Seq::<(
            Seq<u8>,
            Seq<Seq<u8>>,
            Seq<Seq<u8>>,
        )>::empty());
        assert(conflicts_view(conflicts@) + Seq::<(
            Seq<u8>,
            Seq<Seq<u8>>,
            Seq<Seq<u8>>,
        )>::empty() =~= conflicts_view(conflicts@));
    }
}

/// Whether the key of `a` comes strictly before the key of `b`.
pub fn conflict_lt_fn(a: &ConflictEntry, b: &ConflictEntry) -> (r: bool)
    ensures
        r == conflict_key_lt(conflict_view1(*a), conflict_view1(*b)),
{
    if crate::order::name_lt(&a.partition, &b.partition) {
        true
    } else if crate::fs_model::name_eq(&a.partition, &b.partition) {
        crate::order::path_lt_fn(&a.relative_path, &b.relative_path)
    } else {
        false
    }
}

/// Inserts `x` into the key-sorted vector `r`.
#[verifier::loop_isolation(false)]
pub fn insert_conflict_vec(r: &mut Vec<ConflictEntry>, x: ConflictEntry)
    ensures
        conflicts_view(final(r)@) == insert_conflict_sorted(
            conflict_view1(x),
            conflicts_view(old(r)@),
        ),
{
    let ghost s = conflicts_view(r@);
    let ghost xv = conflict_view1(x);
    let n = r.len();
    let mut k: usize = 0;
    while k < n && !conflict_lt_fn(&x, &r[k])
        invariant
            k <= n,
            n == r@.len(),
            conflicts_view(r@) == s,
            forall|j: int| 0 <= j < k ==> !conflict_key_lt(xv, #[trigger] s[j]),
        decreases n - k,
    {
        proof {
            assert(conflicts_view(r@)[k as int] == conflict_view1(r@[k as int]));
        }
        k += 1;
    }
    proof {
        if k < n {
            assert(conflicts_view(r@)[k as int] == conflict_view1(r@[k as int]));
        }
        lemma_insert_conflict_at(xv, s, k as int);
    }
    let ghost rv0 = r@;
    r.insert(k, x);
    proof {
        let full = s.take(k as int) + seq![xv] + s.skip(k as int);
        assert forall|j: int|
            0 <= j < conflicts_view(r@).len() implies conflicts_view(r@)[j] == full[j] by {
            assert(conflicts_view(r@)[j] == conflict_view1(r@[j]));
            if j < k {
                assert(r@[j] == rv0[j]);
                assert(conflicts_view(rv0)[j] == conflict_view1(rv0[j]));
            } else if j == k {
                assert(r@[j] == x);
            } else {
                assert(r@[j] == rv0[j - 1]);
                assert(conflicts_view(rv0)[j - 1] == conflict_view1(rv0[j - 1]));
            }
        }
        assert(conflicts_view(r@) =~= full);
    }
}

/// Sorts the conflicts by partition and relative path.
#[verifier::loop_isolation(false)]
pub fn sort_conflicts(v: &Vec<ConflictEntry>) -> (r: Vec<ConflictEntry>)
    ensures
        conflicts_view(r@) == sort_conflicts_spec(conflicts_view(v@)),
{
    let ghost sv = conflicts_view(v@);
    let mut r: Vec<ConflictEntry> = Vec::new();
    let mut i: usize = v.len();
    proof {
        assert(sv.len() == v@.len());
        assert(sv.skip(v@.len() as int) =~= Seq::<(Seq<u8>, Seq<Seq<u8>>, Seq<Seq<u8>>)>::empty());
        assert(conflicts_view(r@) =~= Seq::<(Seq<u8>, Seq<Seq<u8>>, Seq<Seq<u8>>)>::empty());
    }
    while i > 0
        invariant
            i <= v@.len(),
            conflicts_view(r@) == sort_conflicts_spec(sv.skip(i as int)),
        decreases i,
    {
        i -= 1;
        proof {
            assert(conflicts_view(v@)[i as int] == conflict_view1(v@[i as int]));
        }
        let x = clone_conflict(&v[i]);
        insert_conflict_vec(&mut r, x);
        proof {
            assert(sv.skip(i as int)[0] == sv[i as int]);
            assert(sv.skip(i as int).drop_first() =~= sv.skip(i as int + 1));
            lemma_sort_conflicts_unfold(sv.skip(i as int));
        }
    }
    proof {
        assert(sv.skip(0) =~= sv);
    }
    r
}

/// Analyzes a completed mount plan: each operation independently,
/// then the per-operation conflict lists concatenated and sorted by
/// partition and relative path, and the diagnostic lists
/// concatenated in operation order.
#[verifier::loop_isolation(false)]
pub fn analyze(fs: &Snapshot, plan: &crate::planner::MountPlan) -> (r: AnalysisReport)
    ensures
        ({
            let out = analyze_ops_spec(fs.entries@, ops_view(plan.overlay_ops@), 0);
            &&& conflicts_view(r.conflicts@) == sort_conflicts_spec(out.0)
            &&& issues_view(r.diagnostics@) == out.1
        }),
{
    let ghost entries = fs.entries@;
    let ghost opsv = ops_view(plan.overlay_ops@);
    let mut conflicts: Vec<ConflictEntry> = Vec::new();
    let mut diagnostics: Vec<DiagnosticIssue> = Vec::new();
    let op_n = plan.overlay_ops.len();
    let mut oi: usize = 0;
    proof {
        assert(opsv.len() == plan.overlay_ops@.len());
        assert(conflicts_view(conflicts@) =~= Seq::<(Seq<u8>, Seq<Seq<u8>>, Seq<Seq<u8>>)>::empty());
        assert(issues_view(diagnostics@) =~= Seq::<(
            Severity,
            IssueKind,
            Seq<u8>,
            Seq<Seq<u8>>,
        )>::empty());
    }
    while oi < op_n
        invariant
            oi <= op_n,
            op_n == plan.overlay_ops@.len(),
            analyze_ops_spec(entries, opsv, 0).0 == conflicts_view(conflicts@) + analyze_ops_spec(
                entries,
                opsv,
                oi as int,
            ).0,
            analyze_ops_spec(entries, opsv, 0).1 == issues_view(diagnostics@) + analyze_ops_spec(
                entries,
                opsv,
                oi as int,
            ).1,
        decreases op_n - oi,
    {
        let ghost c0 = conflicts_view(conflicts@);
        let ghost d0 = issues_view(diagnostics@);
        proof {
            lemma_analyze_ops_unfold(entries, opsv, oi as int);
            assert(opsv[oi as int] == (
                plan.overlay_ops@[oi as int].target.deep_view(),
                plan.overlay_ops@[oi as int].partition@,
                layers_view(plan.overlay_ops@[oi as int].lowerdirs@),
            ));
        }
        analyze_op(fs, &plan.overlay_ops[oi], &mut conflicts, &mut diagnostics);
        proof {
            let head = analyze_op_spec(entries, opsv[oi as int]);
            let restc = analyze_ops_spec(entries, opsv, oi as int + 1).0;
            let restd = analyze_ops_spec(entries, opsv, oi as int + 1).1;
            assert(c0 + (head.0 + restc) =~= (c0 + head.0) + restc);
            assert(d0 + (head.1 + restd) =~= (d0 + head.1) + restd);
        }
        oi += 1;
    }
    proof {
        assert(analyze_ops_spec(entries, opsv, op_n as int).0 =~= Seq::<(
            Seq<u8>,
            Seq<Seq<u8>>,
            Seq<Seq<u8>>,
        )>::empty());
        assert(analyze_ops_spec(entries, opsv, op_n as int).1 =~= Seq::<(
            Severity,
            IssueKind,
            Seq<u8>,
            Seq<Seq<u8>>,
        )>::empty());
        assert(conflicts_view(conflicts@) + Seq::<(
            Seq<u8>,
            Seq<Seq<u8>>,
            Seq<Seq<u8>>,
        )>::empty() =~= conflicts_view(conflicts@));
        assert(issues_view(diagnostics@) + Seq::<(
            Severity,
            IssueKind,
            Seq<u8>,
            Seq<Seq<u8>>,
        )>::empty() =~= issues_view(diagnostics@));
    }
    let sorted = sort_conflicts(&conflicts);
    AnalysisReport { conflicts: sorted, diagnostics }
}

} // verus!
