//! An immutable snapshot model of the filesystem state that planning
//! and analysis read: a flat table of absolute paths, each tagged as a
//! directory, a regular file, or a symbolic link.
//!
//! Path components and module identifiers are raw byte strings, since
//! file names on the target systems are byte strings and need not be
//! valid UTF-8. An absolute path is the sequence of its components
//! from the root; the empty sequence denotes the root itself.

use vstd::prelude::*;

verus! {

/// One path component or module identifier, as raw bytes.
pub type Name = Vec<u8>;

/// An absolute path, as its components from the root.
pub type AbsPath = Vec<Name>;

/// What a path refers to in the snapshot.
///
/// A symlink records its destination as written: either absolute, or
/// relative to the directory holding the link. The destination may
/// contain `.` and `..` components.
pub enum NodeKind {
    Dir,
    File,
    Symlink { absolute: bool, dest: Vec<Name> },
}

/// One snapshot row: an absolute path and what it refers to.
pub struct FsEntry {
    pub path: AbsPath,
    pub kind: NodeKind,
}

/// A read-only snapshot of the filesystem state the planner consults.
pub struct Snapshot {
    pub entries: Vec<FsEntry>,
}

/// Bridges the deep view of a byte vector with its plain view.
pub broadcast proof fn lemma_name_deep_view(v: Vec<u8>)
    ensures
        #[trigger] v.deep_view() == v@,
{
    assert(v.deep_view() =~= v@);
}

/// The first entry of `entries` whose path is `p`, if any.
pub open spec fn find_entry(entries: Seq<FsEntry>, p: Seq<Seq<u8>>) -> Option<NodeKind>
    decreases entries.len(),
{
    if entries.len() == 0 {
        None
    } else if entries[0].path.deep_view() == p {
        Some(entries[0].kind)
    } else {
        find_entry(entries.drop_first(), p)
    }
}

/// True if the snapshot maps `p` to anything at all.
pub open spec fn spec_node_exists(entries: Seq<FsEntry>, p: Seq<Seq<u8>>) -> bool {
    find_entry(entries, p) is Some
}

/// True if the snapshot maps `p` to a directory.
pub open spec fn spec_is_dir(entries: Seq<FsEntry>, p: Seq<Seq<u8>>) -> bool {
    find_entry(entries, p) == Some(NodeKind::Dir)
}

/// Byte-string equality on names.
pub fn name_eq(a: &Name, b: &Name) -> (r: bool)
    ensures
        r == (a@ == b@),
{
    if a.len() != b.len() {
        return false;
    }
    let n = a.len();
    let mut i: usize = 0;
    while i < n
        invariant
            i <= n,
            n == a.len(),
            n == b.len(),
            forall|j: int| 0 <= j < i ==> a@[j] == b@[j],
        decreases n - i,
    {
        if a[i] != b[i] {
            return false;
        }
        i += 1;
    }
    assert(a@ =~= b@);
    true
}

/// Component-wise equality on paths.
pub fn path_eq(a: &AbsPath, b: &AbsPath) -> (r: bool)
    ensures
        r == (a.deep_view() == b.deep_view()),
{
    broadcast use lemma_name_deep_view;

    if a.len() != b.len() {
        assert(a.deep_view().len() == a@.len());
        assert(b.deep_view().len() == b@.len());
        return false;
    }
    let n = a.len();
    let mut i: usize = 0;
    while i < n
        invariant
            i <= n,
            n == a.len(),
            n == b.len(),
            forall|j: int| 0 <= j < i ==> a.deep_view()[j] == b.deep_view()[j],
        decreases n - i,
    {
        if !name_eq(&a[i], &b[i]) {
            proof {
                lemma_name_deep_view(a@[i as int]);
                lemma_name_deep_view(b@[i as int]);
                assert(a.deep_view()[i as int] == a@[i as int].deep_view());
                assert(b.deep_view()[i as int] == b@[i as int].deep_view());
            }
            return false;
        }
        i += 1;
    }
    assert(a.deep_view() =~= b.deep_view());
    true
}

/// Index-wise characterization of a path's deep view.
pub proof fn lemma_path_deep_view_index(p: Vec<Name>, j: int)
    requires
        0 <= j < p@.len(),
    ensures
        p.deep_view().len() == p@.len(),
        p.deep_view()[j] == p@[j]@,
{
    lemma_name_deep_view(p@[j]);
}

/// A path whose components match `b` index-wise has `b` as its deep
/// view.
pub proof fn lemma_path_deep_view_eq(a: Vec<Name>, b: Seq<Seq<u8>>)
    requires
        a@.len() == b.len(),
        forall|j: int| 0 <= j < a@.len() ==> #[trigger] a@[j]@ == b[j],
    ensures
        a.deep_view() == b,
{
    assert forall|j: int| 0 <= j < a.deep_view().len() implies a.deep_view()[j] == b[j] by {
        lemma_path_deep_view_index(a, j);
    }
    assert(a.deep_view() =~= b);
}

/// Copy of a name.
pub fn clone_name(v: &Name) -> (r: Name)
    ensures
        r@ == v@,
{
    let n = v.len();
    let mut r: Vec<u8> = Vec::new();
    let mut i: usize = 0;
    while i < n
        invariant
            i <= n,
            n == v.len(),
            r@ == v@.subrange(0, i as int),
        decreases n - i,
    {
        r.push(v[i]);
        proof {
            assert(r@ =~= v@.subrange(0, i as int + 1));
        }
        i += 1;
    }
    proof {
        assert(v@.subrange(0, n as int) =~= v@);
    }
    r
}

/// The components of `p` from position `from` up to (excluding) `to`.
pub fn path_slice(p: &AbsPath, from: usize, to: usize) -> (r: AbsPath)
    requires
        from <= to <= p.len(),
    ensures
        r.deep_view() == p.deep_view().subrange(from as int, to as int),
{
    let mut r: Vec<Name> = Vec::new();
    let mut i: usize = from;
    while i < to
        invariant
            from <= i <= to,
            to <= p.len(),
            r@.len() == i - from,
            forall|j: int| 0 <= j < r@.len() ==> #[trigger] r@[j]@ == p@[from + j]@,
        decreases to - i,
    {
        let x = clone_name(&p[i]);
        r.push(x);
        i += 1;
    }
    proof {
        assert forall|j: int| 0 <= j < r@.len() implies r@[j]@ == p.deep_view().subrange(
            from as int,
            to as int,
        )[j] by {
            lemma_path_deep_view_index(*p, from + j);
        }
        lemma_path_deep_view_eq(r, p.deep_view().subrange(from as int, to as int));
    }
    r
}

/// Copy of a path.
pub fn clone_path(p: &AbsPath) -> (r: AbsPath)
    ensures
        r.deep_view() == p.deep_view(),
{
    let r = path_slice(p, 0, p.len());
    proof {
        assert(p.deep_view().len() == p@.len()) by {
            if p@.len() > 0 {
                lemma_path_deep_view_index(*p, 0);
            } else {
                assert(p.deep_view() =~= Seq::<Seq<u8>>::empty());
            }
        }
        assert(p.deep_view().subrange(0, p.len() as int) =~= p.deep_view());
    }
    r
}

/// `p` with `n` appended.
pub fn path_push(p: &AbsPath, n: &Name) -> (r: AbsPath)
    ensures
        r.deep_view() == p.deep_view().push(n@),
{
    let mut r = clone_path(p);
    let ghost rold = r;
    let x = clone_name(n);
    r.push(x);
    proof {
        assert(rold.deep_view().len() == rold@.len());
        assert(p.deep_view().len() == p@.len());
        assert forall|j: int| 0 <= j < r@.len() implies r@[j]@ == p.deep_view().push(n@)[j] by {
            if j < rold@.len() {
                lemma_path_deep_view_index(rold, j);
            }
        }
        lemma_path_deep_view_eq(r, p.deep_view().push(n@));
    }
    r
}

/// `p` without its last component; the root stays the root.
pub fn path_drop_last(p: &AbsPath) -> (r: AbsPath)
    ensures
        p.deep_view().len() > 0 ==> r.deep_view() == p.deep_view().drop_last(),
        p.deep_view().len() == 0 ==> r.deep_view() == p.deep_view(),
{
    proof {
        if p@.len() > 0 {
            lemma_path_deep_view_index(*p, 0);
        } else {
            assert(p.deep_view() =~= Seq::<Seq<u8>>::empty());
        }
    }
    if p.len() == 0 {
        let r = clone_path(p);
        r
    } else {
        let r = path_slice(p, 0, p.len() - 1);
        proof {
            assert(p.deep_view().subrange(0, p.len() - 1) =~= p.deep_view().drop_last());
        }
        r
    }
}

/// `p` without its first component.
pub fn path_tail(p: &AbsPath) -> (r: AbsPath)
    requires
        p@.len() > 0,
    ensures
        r.deep_view() == p.deep_view().drop_first(),
{
    let r = path_slice(p, 1, p.len());
    proof {
        lemma_path_deep_view_index(*p, 0);
        assert(p.deep_view().subrange(1, p.len() as int) =~= p.deep_view().drop_first());
    }
    r
}

/// The concatenation of `a` and `b`.
pub fn path_concat(a: &AbsPath, b: &AbsPath) -> (r: AbsPath)
    ensures
        r.deep_view() == a.deep_view() + b.deep_view(),
{
    let mut r = clone_path(a);
    proof {
        assert(r.deep_view().len() == r@.len());
        assert(a.deep_view().len() == a@.len());
        assert forall|j: int| 0 <= j < a@.len() implies r@[j]@ == a@[j]@ by {
            lemma_path_deep_view_index(r, j);
            lemma_path_deep_view_index(*a, j);
        }
    }
    let n = b.len();
    let mut i: usize = 0;
    while i < n
        invariant
            i <= n,
            n == b.len(),
            r@.len() == a@.len() + i,
            forall|j: int| 0 <= j < a@.len() ==> #[trigger] r@[j]@ == a@[j]@,
            forall|j: int| a@.len() <= j < r@.len() ==> #[trigger] r@[j]@ == b@[j - a@.len()]@,
        decreases n - i,
    {
        let x = clone_name(&b[i]);
        r.push(x);
        i += 1;
    }
    proof {
        assert forall|j: int| 0 <= j < r@.len() implies r@[j]@ == (a.deep_view()
            + b.deep_view())[j] by {
            if j < a@.len() {
                lemma_path_deep_view_index(*a, j);
            } else {
                lemma_path_deep_view_index(*b, j - a@.len());
            }
        }
        assert(a.deep_view().len() == a@.len()) by {
            if a@.len() > 0 {
                lemma_path_deep_view_index(*a, 0);
            } else {
                assert(a.deep_view() =~= Seq::<Seq<u8>>::empty());
            }
        }
        assert(b.deep_view().len() == b@.len()) by {
            if b@.len() > 0 {
                lemma_path_deep_view_index(*b, 0);
            } else {
                assert(b.deep_view() =~= Seq::<Seq<u8>>::empty());
            }
        }
        lemma_path_deep_view_eq(r, a.deep_view() + b.deep_view());
    }
    r
}

/// The indices in `s`, as mathematical integers.
pub open spec fn to_int_seq(s: Seq<usize>) -> Seq<int> {
    s.map_values(|u: usize| u as int)
}

/// `q` lies directly below `parent`: one component longer, same prefix.
pub open spec fn child_of(parent: Seq<Seq<u8>>, q: Seq<Seq<u8>>) -> bool {
    &&& q.len() == parent.len() + 1
    &&& q.take(parent.len() as int) == parent
}

/// Whether `q` lies directly below `parent`.
pub fn path_is_child(parent: &AbsPath, q: &AbsPath) -> (r: bool)
    ensures
        r == child_of(parent.deep_view(), q.deep_view()),
{
    broadcast use lemma_name_deep_view;

    if q.len() == 0 || q.len() - 1 != parent.len() {
        return false;
    }
    let n = parent.len();
    let mut i: usize = 0;
    while i < n
        invariant
            i <= n,
            n == parent.len(),
            q.len() == n + 1,
            forall|j: int| 0 <= j < i ==> q.deep_view()[j] == parent.deep_view()[j],
        decreases n - i,
    {
        if !name_eq(&q[i], &parent[i]) {
            proof {
                lemma_name_deep_view(q@[i as int]);
                lemma_name_deep_view(parent@[i as int]);
                assert(q.deep_view().take(n as int)[i as int] != parent.deep_view()[i as int]);
            }
            return false;
        }
        i += 1;
    }
    proof {
        assert(q.deep_view().take(n as int) =~= parent.deep_view());
    }
    true
}

/// Indices of the entries lying directly below `p`, in table order,
/// from position `i` on.
pub open spec fn child_indices_from(entries: Seq<FsEntry>, p: Seq<Seq<u8>>, i: int) -> Seq<int>
    decreases entries.len() - i,
{
    if i < 0 || i >= entries.len() {
        Seq::empty()
    } else if child_of(p, entries[i].path.deep_view()) {
        seq![i] + child_indices_from(entries, p, i + 1)
    } else {
        child_indices_from(entries, p, i + 1)
    }
}

impl Snapshot {
    /// The index of the snapshot entry for `p`, if any.
    pub fn find_index(&self, p: &AbsPath) -> (r: Option<usize>)
        ensures
            match r {
                Some(i) => {
                    &&& i < self.entries.len()
                    &&& self.entries@[i as int].path.deep_view() == p.deep_view()
                    &&& find_entry(self.entries@, p.deep_view()) == Some(
                        self.entries@[i as int].kind,
                    )
                },
                None => find_entry(self.entries@, p.deep_view()) is None,
            },
    {
        let n = self.entries.len();
        let mut i: usize = 0;
        proof {
            assert(self.entries@.skip(0) =~= self.entries@);
        }
        while i < n
            invariant
                i <= n,
                n == self.entries.len(),
                find_entry(self.entries@, p.deep_view()) == find_entry(
                    self.entries@.skip(i as int),
                    p.deep_view(),
                ),
            decreases n - i,
        {
            proof {
                assert(self.entries@.skip(i as int)[0] == self.entries@[i as int]);
            }
            if path_eq(&self.entries[i].path, p) {
                return Some(i);
            }
            proof {
                assert(self.entries@.skip(i as int).drop_first() =~= self.entries@.skip(
                    i as int + 1,
                ));
            }
            i += 1;
        }
        assert(self.entries@.skip(n as int) =~= Seq::<FsEntry>::empty());
        None
    }

    /// Whether `p` is present in the snapshot (as any kind of node).
    pub fn node_exists(&self, p: &AbsPath) -> (r: bool)
        ensures
            r == spec_node_exists(self.entries@, p.deep_view()),
    {
        self.find_index(p).is_some()
    }

    /// Whether `p` is a directory in the snapshot.
    pub fn is_dir(&self, p: &AbsPath) -> (r: bool)
        ensures
            r == spec_is_dir(self.entries@, p.deep_view()),
    {
        match self.find_index(p) {
            Some(i) => match &self.entries[i].kind {
                NodeKind::Dir => true,
                _ => false,
            },
            None => false,
        }
    }

    /// The indices of the entries lying directly below `p`, in table
    /// order.
    #[verifier::loop_isolation(false)]
    pub fn children_of(&self, p: &AbsPath) -> (r: Vec<usize>)
        ensures
            to_int_seq(r@) == child_indices_from(self.entries@, p.deep_view(), 0),
            forall|k: int|
                0 <= k < r@.len() ==> #[trigger] r@[k] < self.entries@.len()
                    && child_of(p.deep_view(), self.entries@[r@[k] as int].path.deep_view()),
    {
        let ghost pv = p.deep_view();
        let n = self.entries.len();
        let mut r: Vec<usize> = Vec::new();
        let mut i: usize = 0;
        proof {
            assert(to_int_seq(r@) =~= Seq::<int>::empty());
        }
        while i < n
            invariant
                i <= n,
                n == self.entries.len(),
                child_indices_from(self.entries@, pv, 0) == to_int_seq(r@)
                    + child_indices_from(self.entries@, pv, i as int),
                forall|k: int|
                    0 <= k < r@.len() ==> #[trigger] r@[k] < self.entries@.len() && child_of(
                        pv,
                        self.entries@[r@[k] as int].path.deep_view(),
                    ),
            decreases n - i,
        {
            let ghost rm = to_int_seq(r@);
            proof {
                lemma_child_indices_step(self.entries@, pv, i as int);
            }
            if path_is_child(p, &self.entries[i].path) {
                r.push(i);
                proof {
                    assert(to_int_seq(r@) =~= rm.push(i as int));
                    assert(rm + (seq![i as int] + child_indices_from(self.entries@, pv, i as int + 1))
                        =~= rm.push(i as int) + child_indices_from(self.entries@, pv, i as int + 1));
                }
            }
            i += 1;
        }
        proof {
            lemma_child_indices_end(self.entries@, pv, n as int);
            assert(to_int_seq(r@) + Seq::<int>::empty() =~= to_int_seq(r@));
        }
        r
    }
}

/// One unfolding step of `child_indices_from`.
pub proof fn lemma_child_indices_step(entries: Seq<FsEntry>, p: Seq<Seq<u8>>, i: int)
    requires
        0 <= i < entries.len(),
    ensures
        child_of(p, entries[i].path.deep_view()) ==> child_indices_from(entries, p, i) == seq![i]
            + child_indices_from(entries, p, i + 1),
        !child_of(p, entries[i].path.deep_view()) ==> child_indices_from(entries, p, i)
            == child_indices_from(entries, p, i + 1),
{
}

/// Past the end of the table there are no child indices.
pub proof fn lemma_child_indices_end(entries: Seq<FsEntry>, p: Seq<Seq<u8>>, i: int)
    requires
        i >= entries.len(),
    ensures
        child_indices_from(entries, p, i) == Seq::<int>::empty(),
{
}

/// The bytes of the name `.`.
pub open spec fn dot_name() -> Seq<u8> {
    seq![46u8]
}

/// The bytes of the name `..`.
pub open spec fn dot_dot_name() -> Seq<u8> {
    seq![46u8, 46u8]
}

/// Whether `n` is the name `.`.
pub fn is_dot(n: &Name) -> (r: bool)
    ensures
        r == (n@ == dot_name()),
{
    proof {
        assert(dot_name().len() == 1 && dot_name()[0] == 46u8);
    }
    if n.len() == 1 && n[0] == 46 {
        proof {
            assert(n@ =~= dot_name());
        }
        true
    } else {
        false
    }
}

/// Whether `n` is the name `..`.
pub fn is_dot_dot(n: &Name) -> (r: bool)
    ensures
        r == (n@ == dot_dot_name()),
{
    proof {
        assert(dot_dot_name().len() == 2 && dot_dot_name()[0] == 46u8 && dot_dot_name()[1]
            == 46u8);
    }
    if n.len() == 2 && n[0] == 46 && n[1] == 46 {
        proof {
            assert(n@ =~= dot_dot_name());
        }
        true
    } else {
        false
    }
}

/// How many chained symlinks resolution follows before giving up.
pub const LINK_FUEL: u32 = 64;

/// Resolution of `rest` against the already-resolved prefix `cur`:
/// `.` and `..` collapse lexically, every path that the snapshot maps
/// to a symlink is replaced by its destination (absolute destinations
/// restart at the root, relative ones continue from the link's parent
/// directory), and components the snapshot does not know stay as they
/// are. `None` when more than `fuel` links are chained.
pub open spec fn spec_resolve(
    entries: Seq<FsEntry>,
    cur: Seq<Seq<u8>>,
    rest: Seq<Seq<u8>>,
    fuel: nat,
) -> Option<Seq<Seq<u8>>>
    decreases fuel, rest.len(),
{
    if rest.len() == 0 {
        Some(cur)
    } else if rest[0] == dot_name() {
        spec_resolve(entries, cur, rest.drop_first(), fuel)
    } else if rest[0] == dot_dot_name() {
        spec_resolve(
            entries,
            if cur.len() == 0 {
                cur
            } else {
                cur.drop_last()
            },
            rest.drop_first(),
            fuel,
        )
    } else {
        match find_entry(entries, cur.push(rest[0])) {
            Some(NodeKind::Symlink { absolute, dest }) => {
                if fuel == 0 {
                    None
                } else {
                    spec_resolve(
                        entries,
                        if absolute {
                            Seq::empty()
                        } else {
                            cur
                        },
                        dest.deep_view() + rest.drop_first(),
                        (fuel - 1) as nat,
                    )
                }
            },
            _ => spec_resolve(entries, cur.push(rest[0]), rest.drop_first(), fuel),
        }
    }
}

/// The fully resolved, physical form of the absolute path `p`, if it
/// can be resolved within the link-chain budget.
pub open spec fn spec_canonical(entries: Seq<FsEntry>, p: Seq<Seq<u8>>) -> Option<Seq<Seq<u8>>> {
    spec_resolve(entries, Seq::empty(), p, LINK_FUEL as nat)
}

impl Snapshot {
    /// Resolves `rest` against the prefix `cur`; see [`spec_resolve`].
    pub fn resolve_from(&self, cur: AbsPath, rest: &AbsPath, fuel: u32) -> (r: Option<AbsPath>)
        ensures
            match r {
                Some(v) => spec_resolve(self.entries@, cur.deep_view(), rest.deep_view(), fuel as nat)
                    == Some(v.deep_view()),
                None => spec_resolve(self.entries@, cur.deep_view(), rest.deep_view(), fuel as nat)
                    is None,
            },
        decreases fuel, rest@.len(),
    {
        if rest.len() == 0 {
            proof {
                assert(rest.deep_view() =~= Seq::<Seq<u8>>::empty());
            }
            return Some(cur);
        }
        proof {
            lemma_path_deep_view_index(*rest, 0);
        }
        let tail = path_tail(rest);
        if is_dot(&rest[0]) {
            return self.resolve_from(cur, &tail, fuel);
        }
        if is_dot_dot(&rest[0]) {
            let up = path_drop_last(&cur);
            proof {
                if cur@.len() > 0 {
                    lemma_path_deep_view_index(cur, 0);
                } else {
                    assert(cur.deep_view() =~= Seq::<Seq<u8>>::empty());
                }
            }
            return self.resolve_from(up, &tail, fuel);
        }
        let probe = path_push(&cur, &rest[0]);
        match self.find_index(&probe) {
            Some(i) => {
                match &self.entries[i].kind {
                    NodeKind::Symlink { absolute, dest } => {
                        if fuel == 0 {
                            return None;
                        }
                        let dest_copy = clone_path(dest);
                        let joined = path_concat(&dest_copy, &tail);
                        let was_absolute = *absolute;
                        let base: Vec<Name> = if was_absolute {
                            Vec::new()
                        } else {
                            cur
                        };
                        proof {
                            if was_absolute {
                                assert(base.deep_view() =~= Seq::<Seq<u8>>::empty());
                            }
                        }
                        self.resolve_from(base, &joined, fuel - 1)
                    },
                    _ => self.resolve_from(probe, &tail, fuel),
                }
            },
            None => self.resolve_from(probe, &tail, fuel),
        }
    }

    /// The canonical form of the absolute path `p`; see
    /// [`spec_canonical`].
    pub fn canonicalize(&self, p: &AbsPath) -> (r: Option<AbsPath>)
        ensures
            match r {
                Some(v) => spec_canonical(self.entries@, p.deep_view()) == Some(v.deep_view()),
                None => spec_canonical(self.entries@, p.deep_view()) is None,
            },
    {
        let copy = clone_path(p);
        let root: Vec<Name> = Vec::new();
        proof {
            assert(root.deep_view() =~= Seq::<Seq<u8>>::empty());
        }
        self.resolve_from(root, &copy, LINK_FUEL)
    }
}

} // verus!
