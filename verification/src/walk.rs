//! The walk over a directory tree that decides which files go into a
//! bundle. A path is held as its components, each the bytes of its name as
//! the platform stores it. The walk itself reads nothing:
//! the caller looks at each path it hands out and reports what it found.
use vstd::prelude::*;

verus! {

/// The name `.git`.
pub open spec fn git_name() -> Seq<u8> {
    seq![46u8, 103u8, 105u8, 116u8]
}

/// Whether two components are the same bytes.
pub fn same_name(a: &Vec<u8>, b: &Vec<u8>) -> (r: bool)
    ensures
        r == (a@ == b@),
{
    if a.len() != b.len() {
        return false;
    }
    let mut i: usize = 0;
    while i < a.len()
        invariant
            a@.len() == b@.len(),
            i <= a@.len(),
            forall|k: int| 0 <= k < i ==> a@[k] == b@[k],
        decreases a.len() - i,
    {
        if a[i] != b[i] {
            return false;
        }
        i = i + 1;
    }
    assert(a@ =~= b@);
    true
}

/// The components of a path, as byte sequences.
pub open spec fn path_view(p: Vec<Vec<u8>>) -> Seq<Seq<u8>> {
    Seq::new(p@.len(), |i: int| p@[i]@)
}

/// A list of paths, as sequences of components.
pub open spec fn paths_view(ps: Seq<Vec<Vec<u8>>>) -> Seq<Seq<Seq<u8>>> {
    Seq::new(ps.len(), |i: int| path_view(ps[i]))
}

/// Whether two paths have the same components.
pub fn same_path(a: &Vec<Vec<u8>>, b: &Vec<Vec<u8>>) -> (r: bool)
    ensures
        r == (path_view(*a) == path_view(*b)),
{
    if a.len() != b.len() {
        assert(path_view(*a).len() != path_view(*b).len());
        return false;
    }
    let mut i: usize = 0;
    while i < a.len()
        invariant
            a@.len() == b@.len(),
            i <= a@.len(),
            forall|k: int| 0 <= k < i ==> a@[k]@ == b@[k]@,
        decreases a.len() - i,
    {
        if !same_name(&a[i], &b[i]) {
            assert(path_view(*a)[i as int] != path_view(*b)[i as int]);
            return false;
        }
        i = i + 1;
    }
    assert(path_view(*a) =~= path_view(*b));
    true
}

/// Which paths stay out of a bundle.
pub enum IgnoreRule {
    /// An ignore file exists at the base path: every file that it does not
    /// include stays out; directories are always walked.
    Included(Vec<Vec<Vec<u8>>>),
    /// There is no usable ignore file: only what is named `.git` stays out.
    GitOnly,
}

/// Whether `rule` keeps the path `path` out of the bundle.
pub open spec fn ignored(rule: IgnoreRule, path: Seq<Seq<u8>>, is_dir: bool) -> bool {
    match rule {
        IgnoreRule::Included(files) => !is_dir && !paths_view(files@).contains(path),
        IgnoreRule::GitOnly => path.len() > 0 && path.last() == git_name(),
    }
}

/// Whether `files` holds `path`.
fn listed(files: &Vec<Vec<Vec<u8>>>, path: &Vec<Vec<u8>>) -> (r: bool)
    ensures
        r == paths_view(files@).contains(path_view(*path)),
{
    let mut i: usize = 0;
    while i < files.len()
        invariant
            i <= files@.len(),
            forall|k: int| 0 <= k < i ==> path_view(files@[k]) != path_view(*path),
        decreases files.len() - i,
    {
        if same_path(&files[i], path) {
            assert(paths_view(files@)[i as int] == path_view(*path));
            return true;
        }
        i = i + 1;
    }
    assert forall|k: int| 0 <= k < paths_view(files@).len() implies paths_view(files@)[k]
        != path_view(*path) by {
        assert(paths_view(files@)[k] == path_view(files@[k]));
    }
    false
}

impl IgnoreRule {
    /// Whether this rule keeps `path` out of the bundle.
    pub fn ignores(&self, path: &Vec<Vec<u8>>, is_dir: bool) -> (r: bool)
        ensures
            r == ignored(*self, path_view(*path), is_dir),
    {
        match self {
            IgnoreRule::Included(files) => !is_dir && !listed(files, path),
            IgnoreRule::GitOnly => {
                if path.len() == 0 {
                    false
                } else {
                    let last = &path[path.len() - 1];
                    let r = last.len() == 4 && last[0] == 46u8 && last[1] == 103u8 && last[2]
                        == 105u8 && last[3] == 116u8;
                    proof {
                        assert(path_view(*path).last() == last@);
                        if r {
                            assert(last@ =~= git_name());
                        }
                    }
                    r
                }
            },
        }
    }
}

/// What to do with a path that the walk handed out.
pub enum Step {
    /// Leave it out, and all beneath it.
    Skip,
    /// It is a directory: read its entries and hand them to the walk.
    Descend,
    /// It is a file: put it in the bundle.
    Visit,
}

/// The step for a path: ignored paths are skipped, directories are
/// descended into, and the rest are visited.
pub open spec fn step_for(rule: IgnoreRule, path: Seq<Seq<u8>>, is_dir: bool) -> Step {
    if ignored(rule, path, is_dir) {
        Step::Skip
    } else if is_dir {
        Step::Descend
    } else {
        Step::Visit
    }
}

/// Decides the step for a path, from the rule and whether it is a directory.
pub fn classify(rule: &IgnoreRule, path: &Vec<Vec<u8>>, is_dir: bool) -> (s: Step)
    ensures
        s == step_for(*rule, path_view(*path), is_dir),
{
    if rule.ignores(path, is_dir) {
        Step::Skip
    } else if is_dir {
        Step::Descend
    } else {
        Step::Visit
    }
}

/// The components of `entry` after those of `base`, when `base` is a prefix
/// of it, as `Path::strip_prefix` gives them.
pub open spec fn relative_path(entry: Seq<Seq<u8>>, base: Seq<Seq<u8>>) -> Option<
    Seq<Seq<u8>>,
> {
    if base.len() <= entry.len() && entry.take(base.len() as int) == base {
        Some(entry.skip(base.len() as int))
    } else {
        None
    }
}

/// The path of `entry` relative to `base`; `None` where `entry` is not
/// within `base`.
pub fn relative_to(entry: &Vec<Vec<u8>>, base: &Vec<Vec<u8>>) -> (r: Option<Vec<Vec<u8>>>)
    ensures
        match r {
            Some(rel) => relative_path(path_view(*entry), path_view(*base)) == Some(path_view(rel)),
            None => relative_path(path_view(*entry), path_view(*base)) is None,
        },
{
    let ghost e = path_view(*entry);
    let ghost b = path_view(*base);
    if base.len() > entry.len() {
        return None;
    }
    let mut i: usize = 0;
    while i < base.len()
        invariant
            base@.len() <= entry@.len(),
            i <= base@.len(),
            e == path_view(*entry),
            b == path_view(*base),
            forall|k: int| 0 <= k < i ==> entry@[k]@ == base@[k]@,
        decreases base.len() - i,
    {
        if !same_name(&entry[i], &base[i]) {
            assert(e.take(b.len() as int)[i as int] != b[i as int]);
            return None;
        }
        i = i + 1;
    }
    assert(e.take(b.len() as int) =~= b);
    let mut rel: Vec<Vec<u8>> = Vec::new();
    let mut j: usize = base.len();
    while j < entry.len()
        invariant
            base@.len() <= j <= entry@.len(),
            rel@.len() == j - base@.len(),
            forall|k: int| 0 <= k < rel@.len() ==> (#[trigger] rel@[k])@ == entry@[base@.len() + k]@,
        decreases entry.len() - j,
    {
        let c = entry[j].clone();
        rel.push(c);
        j = j + 1;
    }
    assert(path_view(rel) =~= e.skip(b.len() as int));
    Some(rel)
}

/// The paths still to be looked at, in the order a depth-first walk takes
/// them: the entries of a directory come right after it, before anything
/// that was pending before.
pub struct Walk {
    stack: Vec<Vec<Vec<u8>>>,
}

impl Walk {
    /// The pending paths, next first.
    pub closed spec fn pending(&self) -> Seq<Seq<Seq<u8>>> {
        paths_view(self.stack@).reverse()
    }

    /// A walk that starts at `root`.
    pub fn new(root: Vec<Vec<u8>>) -> (w: Walk)
        ensures
            w.pending() == seq![path_view(root)],
    {
        let mut stack: Vec<Vec<Vec<u8>>> = Vec::new();
        stack.push(root);
        let w = Walk { stack };
        assert(w.pending() =~= seq![path_view(root)]);
        w
    }

    /// Whether no path is pending.
    pub fn is_done(&self) -> (r: bool)
        ensures
            r == (self.pending().len() == 0),
    {
        self.stack.len() == 0
    }

    /// Takes the next pending path.
    pub fn next(&mut self) -> (p: Option<Vec<Vec<u8>>>)
        ensures
            old(self).pending().len() == 0 ==> p is None && final(self).pending() == old(
                self,
            ).pending(),
            old(self).pending().len() > 0 ==> (p matches Some(q) && path_view(q) == old(
                self,
            ).pending()[0] && final(self).pending() == old(self).pending().drop_first()),
    {
        let ghost before = self.stack@;
        let p = self.stack.pop();
        proof {
            if before.len() > 0 {
                assert(self.stack@ =~= before.drop_last());
                assert(paths_view(self.stack@).reverse() =~= paths_view(before).reverse().drop_first());
            }
        }
        p
    }

    /// Puts the entries of the directory just taken in front of the pending
    /// paths, in their order.
    pub fn descend(&mut self, entries: Vec<Vec<Vec<u8>>>)
        ensures
            final(self).pending() == paths_view(entries@) + old(self).pending(),
    {
        let ghost before = self.stack@;
        let ghost all = entries@;
        let mut rest = entries;
        while rest.len() > 0
            invariant
                rest@ == all.take(rest@.len() as int),
                rest@.len() <= all.len(),
                self.stack@ == before + all.skip(rest@.len() as int).reverse(),
            decreases rest.len(),
        {
            let ghost n = rest@.len();
            let e = rest.pop().unwrap();
            self.stack.push(e);
            assert(rest@ =~= all.take(n - 1));
            assert(all.skip(n - 1).reverse() =~= all.skip(n as int).reverse().push(all[n - 1]));
            assert(self.stack@ =~= before + all.skip(rest@.len() as int).reverse());
        }
        assert(all.skip(0) =~= all);
        assert(paths_view(self.stack@).reverse() =~= paths_view(all) + paths_view(before).reverse());
    }
}

/// A directory tree as the walk meets it: a path, whether it is a
/// directory, and the entries that reading it gives, in that order.
pub struct TreeNode {
    pub path: Seq<Seq<u8>>,
    pub is_dir: bool,
    pub entries: Seq<TreeNode>,
}

/// The number of paths in a tree.
pub open spec fn tree_size(n: TreeNode) -> nat
    decreases n, 1nat,
{
    1 + forest_size(n.entries)
}

/// The number of paths in a list of trees.
pub open spec fn forest_size(ns: Seq<TreeNode>) -> nat
    decreases ns, 0nat,
{
    if ns.len() == 0 {
        0
    } else {
        tree_size(ns[0]) + forest_size(ns.drop_first())
    }
}

/// The files of a tree that a bundle takes, depth first and in entry
/// order: nothing of an ignored path, a file itself, and the files of each
/// entry of a directory in turn.
pub open spec fn tree_files(rule: IgnoreRule, n: TreeNode) -> Seq<Seq<Seq<u8>>>
    decreases n, 1nat,
{
    match step_for(rule, n.path, n.is_dir) {
        Step::Skip => Seq::empty(),
        Step::Visit => seq![n.path],
        Step::Descend => forest_files(rule, n.entries),
    }
}

/// The files of a list of trees, one tree after the other.
pub open spec fn forest_files(rule: IgnoreRule, ns: Seq<TreeNode>) -> Seq<Seq<Seq<u8>>>
    decreases ns, 0nat,
{
    if ns.len() == 0 {
        Seq::empty()
    } else {
        tree_files(rule, ns[0]) + forest_files(rule, ns.drop_first())
    }
}

/// The paths that the walk visits when every path it hands out is looked
/// at in the tree: take the next pending tree (`Walk::next`), decide its
/// step (`classify`), and on `Descend` put its entries in front
/// (`Walk::descend`).
pub open spec fn walk_visits(rule: IgnoreRule, pending: Seq<TreeNode>) -> Seq<Seq<Seq<u8>>>
    decreases forest_size(pending),
{
    if pending.len() == 0 {
        Seq::empty()
    } else {
        let n = pending[0];
        let rest = pending.drop_first();
        proof {
            assert(forest_size(pending) == tree_size(n) + forest_size(rest));
        }
        match step_for(rule, n.path, n.is_dir) {
            Step::Skip => walk_visits(rule, rest),
            Step::Visit => seq![n.path] + walk_visits(rule, rest),
            Step::Descend => {
                proof {
                    lemma_forest_size_concat(n.entries, rest);
                }
                walk_visits(rule, n.entries + rest)
            },
        }
    }
}

/// The size of two lists of trees put together is the sum of their sizes.
pub proof fn lemma_forest_size_concat(a: Seq<TreeNode>, b: Seq<TreeNode>)
    ensures
        forest_size(a + b) == forest_size(a) + forest_size(b),
    decreases a.len(),
{
    if a.len() > 0 {
        assert((a + b).drop_first() =~= a.drop_first() + b);
        assert((a + b)[0] == a[0]);
        lemma_forest_size_concat(a.drop_first(), b);
    } else {
        assert(a + b =~= b);
    }
}

/// The files of two lists of trees put together are those of the first,
/// then those of the second.
pub proof fn lemma_forest_files_concat(rule: IgnoreRule, a: Seq<TreeNode>, b: Seq<TreeNode>)
    ensures
        forest_files(rule, a + b) == forest_files(rule, a) + forest_files(rule, b),
    decreases a.len(),
{
    if a.len() > 0 {
        assert((a + b).drop_first() =~= a.drop_first() + b);
        assert((a + b)[0] == a[0]);
        lemma_forest_files_concat(rule, a.drop_first(), b);
        assert(forest_files(rule, a + b) =~= forest_files(rule, a) + forest_files(rule, b));
    } else {
        assert(a + b =~= b);
        assert(forest_files(rule, a + b) =~= forest_files(rule, a) + forest_files(rule, b));
    }
}

/// Walking from a list of trees visits exactly their files, depth first and
/// in entry order, each where it stands in the tree: the walk leaves out
/// what the ignore rule leaves out and nothing else.
pub proof fn law_walk_visits_tree_files(rule: IgnoreRule, pending: Seq<TreeNode>)
    ensures
        walk_visits(rule, pending) == forest_files(rule, pending),
    decreases forest_size(pending),
{
    if pending.len() > 0 {
        let n = pending[0];
        let rest = pending.drop_first();
        assert(forest_size(pending) == tree_size(n) + forest_size(rest));
        assert(forest_files(rule, pending) == tree_files(rule, n) + forest_files(rule, rest));
        match step_for(rule, n.path, n.is_dir) {
            Step::Skip => {
                law_walk_visits_tree_files(rule, rest);
                assert(forest_files(rule, pending) =~= forest_files(rule, rest));
            },
            Step::Visit => {
                law_walk_visits_tree_files(rule, rest);
            },
            Step::Descend => {
                lemma_forest_size_concat(n.entries, rest);
                law_walk_visits_tree_files(rule, n.entries + rest);
                lemma_forest_files_concat(rule, n.entries, rest);
            },
        }
    }
}

/// Whether the path `p` lies within the path `q`: `q`'s components begin
/// `p`'s.
pub open spec fn path_within(p: Seq<Seq<u8>>, q: Seq<Seq<u8>>) -> bool {
    q.len() <= p.len() && p.take(q.len() as int) == q
}

/// Whether the entries of a directory at `parent` are as a file system
/// gives them: each entry's path is `parent` and one more component, and
/// no two entries have the same path.
pub open spec fn entries_of_dir(parent: Seq<Seq<u8>>, entries: Seq<TreeNode>) -> bool {
    &&& forall|i: int|
        0 <= i < entries.len() ==> (#[trigger] entries[i]).path.len() == parent.len() + 1
            && path_within(entries[i].path, parent)
    &&& forall|i: int, j: int|
        0 <= i < entries.len() && 0 <= j < entries.len() && i != j ==> (#[trigger] entries[i]).path
            != (#[trigger] entries[j]).path
}

/// Whether a tree is as a file system gives it, at every directory.
pub open spec fn tree_well_formed(n: TreeNode) -> bool
    decreases n, 1nat,
{
    entries_of_dir(n.path, n.entries) && forest_well_formed(n.entries)
}

/// Whether every tree of a list is well formed.
pub open spec fn forest_well_formed(ns: Seq<TreeNode>) -> bool
    decreases ns, 0nat,
{
    ns.len() == 0 || (tree_well_formed(ns[0]) && forest_well_formed(ns.drop_first()))
}

/// A path within a path within `q` lies within `q`.
proof fn lemma_within_trans(f: Seq<Seq<u8>>, c: Seq<Seq<u8>>, p: Seq<Seq<u8>>)
    requires
        path_within(f, c),
        path_within(c, p),
    ensures
        path_within(f, p),
{
    assert(f.take(p.len() as int) =~= f.take(c.len() as int).take(p.len() as int));
}

/// Every file of a well-formed tree lies within the tree's path.
pub proof fn lemma_tree_files_within(rule: IgnoreRule, n: TreeNode)
    requires
        tree_well_formed(n),
    ensures
        forall|k: int|
            0 <= k < tree_files(rule, n).len() ==> path_within(
                #[trigger] tree_files(rule, n)[k],
                n.path,
            ),
    decreases n, 1nat,
{
    match step_for(rule, n.path, n.is_dir) {
        Step::Skip => {},
        Step::Visit => {
            assert(n.path.take(n.path.len() as int) =~= n.path);
        },
        Step::Descend => {
            lemma_forest_files_within(rule, n.entries);
            let fs = forest_files(rule, n.entries);
            assert forall|k: int| 0 <= k < fs.len() implies path_within(#[trigger] fs[k], n.path) by {
                let j = choose|j: int|
                    0 <= j < n.entries.len() && path_within(fs[k], #[trigger] n.entries[j].path);
                lemma_within_trans(fs[k], n.entries[j].path, n.path);
            }
        },
    }
}

/// Every file of a list of well-formed trees lies within one of their
/// paths.
pub proof fn lemma_forest_files_within(rule: IgnoreRule, ns: Seq<TreeNode>)
    requires
        forest_well_formed(ns),
    ensures
        forall|k: int|
            0 <= k < forest_files(rule, ns).len() ==> exists|j: int|
                0 <= j < ns.len() && path_within(
                    #[trigger] forest_files(rule, ns)[k],
                    #[trigger] ns[j].path,
                ),
    decreases ns, 0nat,
{
    if ns.len() > 0 {
        lemma_tree_files_within(rule, ns[0]);
        lemma_forest_files_within(rule, ns.drop_first());
        let a = tree_files(rule, ns[0]);
        let b = forest_files(rule, ns.drop_first());
        let fs = forest_files(rule, ns);
        assert(fs == a + b);
        assert forall|k: int| 0 <= k < fs.len() implies exists|j: int|
            0 <= j < ns.len() && path_within(#[trigger] fs[k], #[trigger] ns[j].path) by {
            if k < a.len() {
                assert(fs[k] == a[k]);
                assert(path_within(fs[k], ns[0].path));
            } else {
                assert(fs[k] == b[k - a.len()]);
                let j = choose|j: int|
                    0 <= j < ns.drop_first().len() && path_within(
                        b[k - a.len()],
                        #[trigger] ns.drop_first()[j].path,
                    );
                assert(ns.drop_first()[j] == ns[j + 1]);
                assert(path_within(fs[k], ns[j + 1].path));
            }
        }
    }
}

/// Two sequences without repeats and without a common item join into one
/// without repeats.
proof fn lemma_no_duplicates_concat(a: Seq<Seq<Seq<u8>>>, b: Seq<Seq<Seq<u8>>>)
    requires
        a.no_duplicates(),
        b.no_duplicates(),
        forall|i: int, j: int| 0 <= i < a.len() && 0 <= j < b.len() ==> a[i] != b[j],
    ensures
        (a + b).no_duplicates(),
{
    let c = a + b;
    assert forall|i: int, j: int| 0 <= i < c.len() && 0 <= j < c.len() && i != j implies c[i]
        != c[j] by {
        if i < a.len() && j < a.len() {
        } else if i >= a.len() && j >= a.len() {
            assert(c[i] == b[i - a.len()] && c[j] == b[j - a.len()]);
        } else if i < a.len() {
            assert(c[j] == b[j - a.len()]);
        } else {
            assert(c[i] == b[i - a.len()]);
        }
    }
}

/// A well-formed tree has no file twice.
pub proof fn lemma_tree_files_distinct(rule: IgnoreRule, n: TreeNode)
    requires
        tree_well_formed(n),
    ensures
        tree_files(rule, n).no_duplicates(),
    decreases n, 1nat,
{
    match step_for(rule, n.path, n.is_dir) {
        Step::Skip => {},
        Step::Visit => {},
        Step::Descend => {
            lemma_forest_files_distinct(rule, n.entries, n.path);
        },
    }
}

/// Well-formed entries of one directory have no file twice among them.
pub proof fn lemma_forest_files_distinct(rule: IgnoreRule, ns: Seq<TreeNode>, parent: Seq<Seq<u8>>)
    requires
        forest_well_formed(ns),
        entries_of_dir(parent, ns),
    ensures
        forest_files(rule, ns).no_duplicates(),
    decreases ns, 0nat,
{
    if ns.len() > 0 {
        let rest = ns.drop_first();
        assert(entries_of_dir(parent, rest)) by {
            assert forall|i: int| 0 <= i < rest.len() implies (#[trigger] rest[i]).path.len()
                == parent.len() + 1 && path_within(rest[i].path, parent) by {
                assert(rest[i] == ns[i + 1]);
            }
            assert forall|i: int, j: int|
                0 <= i < rest.len() && 0 <= j < rest.len() && i != j implies (
                #[trigger] rest[i]).path != (#[trigger] rest[j]).path by {
                assert(rest[i] == ns[i + 1] && rest[j] == ns[j + 1]);
            }
        }
        lemma_tree_files_distinct(rule, ns[0]);
        lemma_forest_files_distinct(rule, rest, parent);
        lemma_tree_files_within(rule, ns[0]);
        lemma_forest_files_within(rule, rest);
        let a = tree_files(rule, ns[0]);
        let b = forest_files(rule, rest);
        assert forall|i: int, j: int| 0 <= i < a.len() && 0 <= j < b.len() implies a[i]
            != b[j] by {
            assert(path_within(a[i], ns[0].path));
            let m = choose|m: int|
                0 <= m < rest.len() && path_within(b[j], #[trigger] rest[m].path);
            assert(rest[m] == ns[m + 1]);
            if a[i] == b[j] {
                let l = parent.len() + 1;
                assert(ns[0].path.len() == l && ns[m + 1].path.len() == l);
                assert(ns[0].path == ns[m + 1].path);
            }
        }
        lemma_no_duplicates_concat(a, b);
        assert(forest_files(rule, ns) == a + b);
    }
}

/// In a tree as a file system gives it, the walk visits only paths within
/// the tree's root, and never the same path twice.
pub proof fn law_walk_visits_distinct_files_within(rule: IgnoreRule, root: TreeNode)
    requires
        tree_well_formed(root),
    ensures
        walk_visits(rule, seq![root]).no_duplicates(),
        forall|k: int|
            0 <= k < walk_visits(rule, seq![root]).len() ==> path_within(
                #[trigger] walk_visits(rule, seq![root])[k],
                root.path,
            ),
{
    law_walk_visits_tree_files(rule, seq![root]);
    let one = seq![root];
    assert(one[0] == root);
    assert(one.drop_first() =~= Seq::<TreeNode>::empty());
    assert(forest_files(rule, one.drop_first()).len() == 0);
    assert(forest_files(rule, one) == tree_files(rule, one[0]) + forest_files(
        rule,
        one.drop_first(),
    ));
    assert(forest_files(rule, one) =~= tree_files(rule, root));
    lemma_tree_files_distinct(rule, root);
    lemma_tree_files_within(rule, root);
}

/// Under the default rule a path is left out exactly when its last
/// component is the four bytes `.git` (46, 103, 105, 116): `.gitignore`, `.github` and every
/// other name are kept, whether file or directory, and so is the empty
/// path.
pub proof fn law_git_rule_is_exact_name(path: Seq<Seq<u8>>, name: Seq<u8>, is_dir: bool)
    ensures
        ignored(IgnoreRule::GitOnly, path.push(name), is_dir) == (name == seq![46u8, 103u8, 105u8, 116u8]),
        name.len() != 4 ==> !ignored(IgnoreRule::GitOnly, path.push(name), is_dir),
        !ignored(IgnoreRule::GitOnly, Seq::<Seq<u8>>::empty(), is_dir),
{
    assert(path.push(name).last() == name);
    assert(git_name() =~= seq![46u8, 103u8, 105u8, 116u8]);
}

/// With an ignore file, a path is left out exactly when it is a file that
/// is none of the listed paths; directories are never left out.
pub proof fn law_listed_rule(files: Vec<Vec<Vec<u8>>>, path: Seq<Seq<u8>>, is_dir: bool)
    ensures
        ignored(IgnoreRule::Included(files), path, is_dir) == (!is_dir && forall|i: int|
            0 <= i < files@.len() ==> path_view(#[trigger] files@[i]) != path),
{
    let v = paths_view(files@);
    if v.contains(path) {
        let i = choose|i: int| 0 <= i < v.len() && v[i] == path;
        assert(path_view(files@[i]) == path);
    } else {
        assert forall|i: int| 0 <= i < files@.len() implies path_view(#[trigger] files@[i])
            != path by {
            assert(v[i] == path_view(files@[i]));
        }
    }
}

/// The relative path of `entry` exists exactly when `base` leads `entry`,
/// and then `base` followed by it is `entry`: every component of `base`
/// is taken off, and nothing else.
pub proof fn law_relative_path(entry: Seq<Seq<u8>>, base: Seq<Seq<u8>>)
    ensures
        (relative_path(entry, base) is Some) == (exists|r: Seq<Seq<u8>>| base + r == entry),
        relative_path(entry, base) matches Some(r) ==> base + r == entry && r.len()
            == entry.len() - base.len(),
{
    if relative_path(entry, base) is Some {
        let r = entry.skip(base.len() as int);
        assert(base + r =~= entry);
    } else {
        assert forall|r: Seq<Seq<u8>>| base + r != entry by {
            if base + r == entry {
                assert(entry.take(base.len() as int) =~= base);
            }
        }
    }
}

} // verus!
