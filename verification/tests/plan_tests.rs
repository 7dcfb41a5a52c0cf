use overlay_planner::analyzer::{analyze, IssueKind, Severity};
use overlay_planner::fs_model::{FsEntry, NodeKind, Snapshot};
use overlay_planner::planner::{
    generate, has_files, has_meaningful_content, make_builtin_partitions, DirRule, Module,
    MountMode, MountPlan, PlanConfig,
};

fn path(p: &[&str]) -> Vec<Vec<u8>> {
    p.iter().map(|s| s.as_bytes().to_vec()).collect()
}

fn name(s: &str) -> Vec<u8> {
    s.as_bytes().to_vec()
}

fn dir(p: &[&str]) -> FsEntry {
    FsEntry { path: path(p), kind: NodeKind::Dir }
}

fn file(p: &[&str]) -> FsEntry {
    FsEntry { path: path(p), kind: NodeKind::File }
}

fn link(p: &[&str], absolute: bool, dest: &[&str]) -> FsEntry {
    FsEntry { path: path(p), kind: NodeKind::Symlink { absolute, dest: path(dest) } }
}

fn module(id: &str, rules: Vec<DirRule>) -> Module {
    Module { id: name(id), source_root: path(&["data", "modules", id]), rules }
}

fn no_extras() -> PlanConfig {
    PlanConfig { extra_partitions: Vec::new() }
}

fn storage() -> Vec<Vec<u8>> {
    path(&["data", "storage"])
}

/// Two modules shipping the same file below `system`: precedence
/// order is kept in the layer list, and analysis reports exactly one
/// conflict naming both modules.
#[test]
fn shared_file_is_one_conflict() {
    let fs = Snapshot {
        entries: vec![
            dir(&["system"]),
            dir(&["system", "bin"]),
            dir(&["data", "storage", "alpha"]),
            dir(&["data", "storage", "alpha", "system"]),
            dir(&["data", "storage", "alpha", "system", "bin"]),
            file(&["data", "storage", "alpha", "system", "bin", "toybox"]),
            dir(&["data", "storage", "beta"]),
            dir(&["data", "storage", "beta", "system"]),
            dir(&["data", "storage", "beta", "system", "bin"]),
            file(&["data", "storage", "beta", "system", "bin", "toybox"]),
        ],
    };
    let modules = vec![module("alpha", Vec::new()), module("beta", Vec::new())];
    let plan = generate(&fs, &no_extras(), &modules, &storage());

    // `system` is always probed one level deeper, so the target is
    // /system/bin, labeled with the partition `system`.
    assert_eq!(plan.overlay_ops.len(), 1);
    let op = &plan.overlay_ops[0];
    assert_eq!(op.target, path(&["system", "bin"]));
    assert_eq!(op.partition, name("system"));
    assert_eq!(op.lowerdirs.len(), 2);
    assert_eq!(op.lowerdirs[0].module_id, name("alpha"));
    assert_eq!(op.lowerdirs[0].source, path(&["data", "storage", "alpha", "system", "bin"]));
    assert_eq!(op.lowerdirs[1].module_id, name("beta"));
    assert_eq!(plan.overlay_module_ids, vec![name("alpha"), name("beta")]);
    assert!(plan.magic_module_ids.is_empty());

    let report = analyze(&fs, &plan);
    assert_eq!(report.conflicts.len(), 1);
    let c = &report.conflicts[0];
    assert_eq!(c.partition, name("system"));
    assert_eq!(c.relative_path, path(&["toybox"]));
    assert_eq!(c.module_ids, vec![name("alpha"), name("beta")]);
    assert!(report.diagnostics.is_empty());
}

/// `/vendor` is a symlink to `/system/vendor`: the emitted target is
/// the canonical real path, never the literal `/vendor`.
#[test]
fn symlinked_vendor_targets_canonical_path() {
    let fs = Snapshot {
        entries: vec![
            dir(&["system"]),
            dir(&["system", "vendor"]),
            dir(&["system", "vendor", "lib"]),
            link(&["vendor"], true, &["system", "vendor"]),
            dir(&["data", "storage", "gamma"]),
            dir(&["data", "storage", "gamma", "vendor"]),
            dir(&["data", "storage", "gamma", "vendor", "lib"]),
            file(&["data", "storage", "gamma", "vendor", "lib", "libfoo.so"]),
        ],
    };
    let modules = vec![module("gamma", Vec::new())];
    let plan = generate(&fs, &no_extras(), &modules, &storage());

    assert_eq!(plan.overlay_ops.len(), 1);
    let op = &plan.overlay_ops[0];
    // `vendor` is sensitive, so decomposition goes one level deeper
    // below the canonical /system/vendor.
    assert_eq!(op.target, path(&["system", "vendor", "lib"]));
    assert_eq!(op.partition, name("system"));
    for op in &plan.overlay_ops {
        assert_ne!(op.target[0], name("vendor"));
    }
    assert_eq!(plan.overlay_module_ids, vec![name("gamma")]);
}

/// A rule marking `product` as Fallback routes the module to the
/// fallback set and emits no layer for it, although `product/` has
/// files.
#[test]
fn fallback_rule_emits_no_layer() {
    let fs = Snapshot {
        entries: vec![
            dir(&["product"]),
            dir(&["data", "storage", "delta"]),
            dir(&["data", "storage", "delta", "product"]),
            file(&["data", "storage", "delta", "product", "etc"]),
        ],
    };
    let modules = vec![module(
        "delta",
        vec![DirRule { name: name("product"), mode: MountMode::Fallback }],
    )];
    let plan = generate(&fs, &no_extras(), &modules, &storage());

    assert!(plan.overlay_ops.is_empty());
    assert!(plan.overlay_module_ids.is_empty());
    assert_eq!(plan.magic_module_ids, vec![name("delta")]);
    assert_eq!(plan.magic_module_paths, vec![path(&["data", "storage", "delta"])]);
}

/// A rule marking a directory as Ignore leaves no trace: no layer,
/// no participating identifier, no fallback record.
#[test]
fn ignore_rule_changes_nothing() {
    let fs = Snapshot {
        entries: vec![
            dir(&["odm"]),
            dir(&["data", "storage", "eps"]),
            dir(&["data", "storage", "eps", "odm"]),
            file(&["data", "storage", "eps", "odm", "cfg"]),
        ],
    };
    let modules = vec![module(
        "eps",
        vec![DirRule { name: name("odm"), mode: MountMode::Ignore }],
    )];
    let plan = generate(&fs, &no_extras(), &modules, &storage());

    assert!(plan.overlay_ops.is_empty());
    assert!(plan.overlay_module_ids.is_empty());
    assert!(plan.magic_module_ids.is_empty());
    assert!(plan.magic_module_paths.is_empty());
}

/// A partition with no corresponding directory on the live
/// filesystem is never emitted, whatever the module ships.
#[test]
fn missing_live_target_is_dropped() {
    let fs = Snapshot {
        entries: vec![
            // no /system_ext on the live side
            dir(&["data", "storage", "zeta"]),
            dir(&["data", "storage", "zeta", "system_ext"]),
            file(&["data", "storage", "zeta", "system_ext", "blob"]),
        ],
    };
    let modules = vec![module("zeta", Vec::new())];
    let plan = generate(&fs, &no_extras(), &modules, &storage());

    assert!(plan.overlay_ops.is_empty());
    assert!(plan.overlay_module_ids.is_empty());
}

/// Directories outside the allowed partition set are skipped, and an
/// extra configured partition name widens the set.
#[test]
fn extra_partitions_widen_the_allow_list() {
    let fs = Snapshot {
        entries: vec![
            dir(&["mypart"]),
            dir(&["data", "storage", "eta"]),
            dir(&["data", "storage", "eta", "mypart"]),
            file(&["data", "storage", "eta", "mypart", "f"]),
        ],
    };
    let modules = vec![module("eta", Vec::new())];

    let plan = generate(&fs, &no_extras(), &modules, &storage());
    assert!(plan.overlay_ops.is_empty());

    let config = PlanConfig { extra_partitions: vec![name("mypart")] };
    let plan = generate(&fs, &config, &modules, &storage());
    assert_eq!(plan.overlay_ops.len(), 1);
    assert_eq!(plan.overlay_ops[0].target, path(&["mypart"]));
    assert_eq!(plan.overlay_ops[0].partition, name("mypart"));
}

/// The staged copy wins over the module's original source location,
/// and a module with neither contributes nothing.
#[test]
fn staged_copy_is_preferred() {
    let fs = Snapshot {
        entries: vec![
            dir(&["odm"]),
            dir(&["odm", "etc"]),
            // original source location only
            dir(&["data", "modules", "theta"]),
            dir(&["data", "modules", "theta", "odm"]),
            dir(&["data", "modules", "theta", "odm", "etc"]),
            file(&["data", "modules", "theta", "odm", "etc", "from_source"]),
        ],
    };
    let modules = vec![module("theta", Vec::new()), module("iota", Vec::new())];
    let plan = generate(&fs, &no_extras(), &modules, &storage());

    assert_eq!(plan.overlay_ops.len(), 1);
    assert_eq!(plan.overlay_ops[0].target, path(&["odm", "etc"]));
    assert_eq!(
        plan.overlay_ops[0].lowerdirs[0].source,
        path(&["data", "modules", "theta", "odm", "etc"])
    );
    assert_eq!(plan.overlay_module_ids, vec![name("theta")]);
}

/// Participating and fallback identifier sets come out sorted.
#[test]
fn module_ids_are_sorted() {
    let fs = Snapshot {
        entries: vec![
            dir(&["odm"]),
            dir(&["odm", "etc"]),
            dir(&["data", "storage", "zz"]),
            dir(&["data", "storage", "zz", "odm"]),
            dir(&["data", "storage", "zz", "odm", "etc"]),
            dir(&["data", "storage", "aa"]),
            dir(&["data", "storage", "aa", "odm"]),
            dir(&["data", "storage", "aa", "odm", "etc"]),
        ],
    };
    let modules = vec![module("zz", Vec::new()), module("aa", Vec::new())];
    let plan = generate(&fs, &no_extras(), &modules, &storage());

    assert_eq!(plan.overlay_module_ids, vec![name("aa"), name("zz")]);
    // precedence order is kept in the layer list even though the
    // identifier set is sorted
    assert_eq!(plan.overlay_ops[0].lowerdirs[0].module_id, name("zz"));
    assert_eq!(plan.overlay_ops[0].lowerdirs[1].module_id, name("aa"));
}

/// A dead absolute symlink inside a layer is flagged as a Warning
/// under the owning module's identifier.
#[test]
fn dead_symlink_is_flagged() {
    let fs = Snapshot {
        entries: vec![
            dir(&["odm"]),
            dir(&["data", "storage", "kappa"]),
            dir(&["data", "storage", "kappa", "odm"]),
            link(&["data", "storage", "kappa", "odm", "bad"], true, &["nonexistent", "place"]),
        ],
    };
    let plan = MountPlan {
        overlay_ops: vec![overlay_planner::planner::OverlayOperation {
            target: path(&["odm"]),
            partition: name("odm"),
            lowerdirs: vec![overlay_planner::planner::Layer {
                module_id: name("kappa"),
                source: path(&["data", "storage", "kappa", "odm"]),
            }],
        }],
        magic_module_paths: Vec::new(),
        overlay_module_ids: vec![name("kappa")],
        magic_module_ids: Vec::new(),
    };
    let report = analyze(&fs, &plan);

    assert!(report.conflicts.is_empty());
    assert_eq!(report.diagnostics.len(), 1);
    let d = &report.diagnostics[0];
    assert!(matches!(d.severity, Severity::Warning));
    assert!(matches!(d.kind, IssueKind::DeadSymlink));
    assert_eq!(d.context, name("kappa"));
    assert_eq!(d.path, path(&["data", "storage", "kappa", "odm", "bad"]));
}

/// A live absolute symlink inside a layer is not flagged.
#[test]
fn live_symlink_is_not_flagged() {
    let fs = Snapshot {
        entries: vec![
            dir(&["odm"]),
            dir(&["system"]),
            dir(&["data", "storage", "lam"]),
            dir(&["data", "storage", "lam", "odm"]),
            link(&["data", "storage", "lam", "odm", "ok"], true, &["system"]),
        ],
    };
    let plan = MountPlan {
        overlay_ops: vec![overlay_planner::planner::OverlayOperation {
            target: path(&["odm"]),
            partition: name("odm"),
            lowerdirs: vec![overlay_planner::planner::Layer {
                module_id: name("lam"),
                source: path(&["data", "storage", "lam", "odm"]),
            }],
        }],
        magic_module_paths: Vec::new(),
        overlay_module_ids: vec![name("lam")],
        magic_module_ids: Vec::new(),
    };
    let report = analyze(&fs, &plan);
    assert!(report.diagnostics.is_empty());
}

/// A plan whose target has disappeared draws a Critical finding.
#[test]
fn stale_target_is_critical() {
    let fs = Snapshot { entries: vec![] };
    let plan = MountPlan {
        overlay_ops: vec![overlay_planner::planner::OverlayOperation {
            target: path(&["odm"]),
            partition: name("odm"),
            lowerdirs: Vec::new(),
        }],
        magic_module_paths: Vec::new(),
        overlay_module_ids: Vec::new(),
        magic_module_ids: Vec::new(),
    };
    let report = analyze(&fs, &plan);
    assert_eq!(report.diagnostics.len(), 1);
    assert!(matches!(report.diagnostics[0].severity, Severity::Critical));
    assert!(matches!(report.diagnostics[0].kind, IssueKind::MissingTarget));
    assert_eq!(report.diagnostics[0].context, name("odm"));
}

/// Conflicts come out sorted by partition, then relative path,
/// whatever the order of the operations in the plan.
#[test]
fn conflicts_are_sorted_and_order_independent() {
    let mk_op = |part: &str| overlay_planner::planner::OverlayOperation {
        target: path(&[part]),
        partition: name(part),
        lowerdirs: vec![
            overlay_planner::planner::Layer {
                module_id: name("m1"),
                source: path(&["data", "storage", "m1", part]),
            },
            overlay_planner::planner::Layer {
                module_id: name("m2"),
                source: path(&["data", "storage", "m2", part]),
            },
        ],
    };
    let entries = vec![
        dir(&["vendor"]),
        dir(&["odm"]),
        dir(&["data", "storage", "m1", "vendor"]),
        file(&["data", "storage", "m1", "vendor", "zz"]),
        file(&["data", "storage", "m1", "vendor", "aa"]),
        dir(&["data", "storage", "m2", "vendor"]),
        file(&["data", "storage", "m2", "vendor", "zz"]),
        file(&["data", "storage", "m2", "vendor", "aa"]),
        dir(&["data", "storage", "m1", "odm"]),
        file(&["data", "storage", "m1", "odm", "cfg"]),
        dir(&["data", "storage", "m2", "odm"]),
        file(&["data", "storage", "m2", "odm", "cfg"]),
    ];
    let fs = Snapshot { entries };

    let plan_a = MountPlan {
        overlay_ops: vec![mk_op("vendor"), mk_op("odm")],
        magic_module_paths: Vec::new(),
        overlay_module_ids: Vec::new(),
        magic_module_ids: Vec::new(),
    };
    let plan_b = MountPlan {
        overlay_ops: vec![mk_op("odm"), mk_op("vendor")],
        magic_module_paths: Vec::new(),
        overlay_module_ids: Vec::new(),
        magic_module_ids: Vec::new(),
    };
    let ra = analyze(&fs, &plan_a);
    let rb = analyze(&fs, &plan_b);

    let keys: Vec<_> = ra
        .conflicts
        .iter()
        .map(|c| (c.partition.clone(), c.relative_path.clone(), c.module_ids.clone()))
        .collect();
    assert_eq!(
        keys,
        vec![
            (name("odm"), path(&["cfg"]), vec![name("m1"), name("m2")]),
            (name("vendor"), path(&["aa"]), vec![name("m1"), name("m2")]),
            (name("vendor"), path(&["zz"]), vec![name("m1"), name("m2")]),
        ]
    );
    let keys_b: Vec<_> = rb
        .conflicts
        .iter()
        .map(|c| (c.partition.clone(), c.relative_path.clone(), c.module_ids.clone()))
        .collect();
    assert_eq!(keys, keys_b);
}

/// A module whose content root is missing entirely is skipped.
#[test]
fn missing_module_content_is_skipped() {
    let fs = Snapshot { entries: vec![dir(&["odm"])] };
    let modules = vec![module("ghost", Vec::new())];
    let plan = generate(&fs, &no_extras(), &modules, &storage());
    assert!(plan.overlay_ops.is_empty());
    assert!(plan.overlay_module_ids.is_empty());
    assert!(plan.magic_module_ids.is_empty());
}

/// `has_files` and `has_meaningful_content` see exactly what the
/// snapshot holds.
#[test]
fn content_predicates() {
    let fs = Snapshot {
        entries: vec![
            dir(&["data", "storage", "mu"]),
            dir(&["data", "storage", "mu", "system"]),
            file(&["data", "storage", "mu", "system", "f"]),
            dir(&["data", "storage", "nu"]),
            dir(&["data", "storage", "nu", "stray"]),
            file(&["data", "storage", "nu", "stray", "f"]),
        ],
    };
    let parts = make_builtin_partitions();
    assert!(has_files(&fs, &path(&["data", "storage", "mu", "system"])));
    assert!(!has_files(&fs, &path(&["data", "storage", "mu", "system", "f"])));
    assert!(has_meaningful_content(&fs, &path(&["data", "storage", "mu"]), &parts));
    assert!(!has_meaningful_content(&fs, &path(&["data", "storage", "nu"]), &parts));
}

/// A relative symlink on the way to a target is resolved against its
/// parent directory.
#[test]
fn relative_symlink_resolves_against_parent() {
    let fs = Snapshot {
        entries: vec![
            dir(&["system"]),
            dir(&["system", "real_odm"]),
            link(&["odm"], false, &["system", "real_odm"]),
            dir(&["data", "storage", "xi"]),
            dir(&["data", "storage", "xi", "odm"]),
            file(&["data", "storage", "xi", "odm", "f"]),
        ],
    };
    let modules = vec![module("xi", Vec::new())];
    let plan = generate(&fs, &no_extras(), &modules, &storage());
    assert_eq!(plan.overlay_ops.len(), 1);
    // /odm -> system/real_odm, whose last component is not sensitive,
    // so it is mounted directly at its canonical path.
    assert_eq!(plan.overlay_ops[0].target, path(&["system", "real_odm"]));
}

/// No modules, no plan.
#[test]
fn empty_module_list_gives_empty_plan() {
    let fs = Snapshot { entries: vec![dir(&["system"])] };
    let plan = generate(&fs, &no_extras(), &Vec::new(), &storage());
    assert!(plan.overlay_ops.is_empty());
    assert!(plan.overlay_module_ids.is_empty());
    assert!(plan.magic_module_ids.is_empty());
    assert!(plan.magic_module_paths.is_empty());
}

/// A symlink cycle on the target side cannot be resolved, so the
/// branch is dropped rather than looping.
#[test]
fn symlink_cycle_is_dropped() {
    let fs = Snapshot {
        entries: vec![
            link(&["odm"], true, &["odm"]),
            dir(&["data", "storage", "rho"]),
            dir(&["data", "storage", "rho", "odm"]),
            file(&["data", "storage", "rho", "odm", "f"]),
        ],
    };
    let modules = vec![module("rho", Vec::new())];
    let plan = generate(&fs, &no_extras(), &modules, &storage());
    assert!(plan.overlay_ops.is_empty());
}

/// Every emitted target is an existing directory of the snapshot.
#[test]
fn emitted_targets_exist_and_are_dirs() {
    let fs = Snapshot {
        entries: vec![
            dir(&["system"]),
            dir(&["system", "bin"]),
            dir(&["odm"]),
            dir(&["odm", "etc"]),
            dir(&["data", "storage", "sig"]),
            dir(&["data", "storage", "sig", "system"]),
            dir(&["data", "storage", "sig", "system", "bin"]),
            dir(&["data", "storage", "sig", "odm"]),
            dir(&["data", "storage", "sig", "odm", "etc"]),
            // `system_ext` is shipped but missing on the live side
            dir(&["data", "storage", "sig", "system_ext"]),
            dir(&["data", "storage", "sig", "system_ext", "x"]),
        ],
    };
    let modules = vec![module("sig", Vec::new())];
    let plan = generate(&fs, &no_extras(), &modules, &storage());
    assert_eq!(plan.overlay_ops.len(), 2);
    for op in &plan.overlay_ops {
        let found = fs
            .entries
            .iter()
            .any(|e| e.path == op.target && matches!(e.kind, NodeKind::Dir));
        assert!(found);
        assert_eq!(op.partition, op.target[0]);
    }
}
