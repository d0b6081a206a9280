//! Document entries, settings, and the one-shot scanner: recursive traversal
//! of modeled directory trees with exclusion pruning, Markdown filtering,
//! metadata materialization, and a newest-first stable ordering.

use vstd::prelude::*;

verus! {

use crate::policy;
use crate::sorting;

/// One indexable Markdown document: a snapshot of path, display name and
/// metadata at the moment it was produced, not a live handle.
#[derive(Debug, Clone)]
pub struct FileEntry {
    pub path: String,
    pub name: String,
    pub modified: u64,
    pub size: u64,
}

/// The mathematical value of a `FileEntry`.
#[verifier::ext_equal]
pub struct EntryModel {
    pub path: Seq<char>,
    pub name: Seq<char>,
    pub modified: u64,
    pub size: u64,
}

impl View for FileEntry {
    type V = EntryModel;

    open spec fn view(&self) -> EntryModel {
        EntryModel { path: self.path@, name: self.name@, modified: self.modified, size: self.size }
    }
}

impl DeepView for FileEntry {
    type V = EntryModel;

    open spec fn deep_view(&self) -> EntryModel {
        self.view()
    }
}

/// One configured root directory.
#[derive(Debug, Clone)]
pub struct Source {
    pub path: String,
    pub enabled: bool,
}

/// The persisted application settings.
#[derive(Debug, Clone)]
pub struct Settings {
    pub sources: Vec<Source>,
    pub exclusions: Vec<String>,
    pub theme: String,
    pub last_opened_file: Option<String>,
}

/// The directory names every scan and watch excludes even when the user's
/// list omits them; the user list is additive, never subtractive.
pub open spec fn fixed_exclusion_names() -> Seq<Seq<char>> {
    seq!["node_modules"@, ".git"@, "vendor"@, "dist"@, "build"@, "target"@]
}

pub fn default_exclusions() -> (r: Vec<String>)
    ensures
        r.deep_view() == fixed_exclusion_names(),
{
    let mut v: Vec<String> = Vec::new();
    v.push("node_modules".to_owned());
    v.push(".git".to_owned());
    v.push("vendor".to_owned());
    v.push("dist".to_owned());
    v.push("build".to_owned());
    v.push("target".to_owned());
    proof {
        assert(v.deep_view() =~= fixed_exclusion_names());
    }
    v
}

pub open spec fn full_exclusions(user: Seq<Seq<char>>) -> Seq<Seq<char>> {
    fixed_exclusion_names() + user
}

/// The fixed exclusion set extended by the user's additions.
#[verifier::loop_isolation(false)]
pub fn effective_exclusions(user: &Vec<String>) -> (r: Vec<String>)
    ensures
        r.deep_view() == full_exclusions(user.deep_view()),
{
    let mut v = default_exclusions();
    let mut i: usize = 0;
    while i < user.len()
        invariant
            i <= user.len(),
            v.deep_view() =~= fixed_exclusion_names() + user.deep_view().subrange(0, i as int),
        decreases user.len() - i,
    {
        let ghost prev = v.deep_view();
        let ghost prevseq = v@;
        let item = user[i].clone();
        proof {
            assert(item == user@[i as int]);
        }
        v.push(item);
        proof {
            let dv = v.deep_view();
            let expect = fixed_exclusion_names() + user.deep_view().subrange(0, (i + 1) as int);
            assert forall|j: int| 0 <= j < dv.len() implies dv[j] == expect[j] by {
                assert(dv[j] == v@[j].deep_view());
                if j < prevseq.len() {
                    assert(v@[j] == prevseq[j]);
                    assert(prev[j] == prevseq[j].deep_view());
                } else {
                    assert(v@[j] == user@[i as int]);
                    assert(user.deep_view()[i as int] == user@[i as int].deep_view());
                }
            }
            assert(dv =~= expect);
        }
        i += 1;
    }
    proof {
        assert(user.deep_view().subrange(0, user.len() as int) =~= user.deep_view());
    }
    v
}

/// A modeled filesystem subtree: what one traversal observed on disk, handed
/// to the scanner as a value.
pub enum FsNode {
    File { name: String, modified: u64, size: u64 },
    Dir { name: String, entries: Vec<FsNode> },
}

/// One expanded root path together with the subtree found there, or `None`
/// when the root does not exist (such a root is skipped silently).
pub struct RootTree {
    pub path: String,
    pub node: Option<FsNode>,
}

pub open spec fn node_name(n: FsNode) -> Seq<char> {
    match n {
        FsNode::File { name, .. } => name@,
        FsNode::Dir { name, .. } => name@,
    }
}

pub open spec fn entry_at(full: Seq<char>, modified: u64, size: u64) -> EntryModel {
    EntryModel { path: full, name: policy::file_name_of(full), modified, size }
}

/// Every entry one scan finds under a node standing at path `full`: excluded
/// directories are pruned whole (never descended into), and exactly the
/// Markdown-named files below whose own full path carries no excluded
/// component are materialized — the same per-component test the watcher
/// applies, so a hidden file name or an excluded component in the configured
/// root path keeps a file out of the snapshot.
pub open spec fn scan_node_spec(full: Seq<char>, node: FsNode, excl: Seq<Seq<char>>) -> Seq<
    EntryModel,
>
    decreases node,
{
    match node {
        FsNode::File { name: _, modified, size } => if policy::is_markdown_path(full)
            && !policy::is_excluded_path(full, excl) {
            seq![entry_at(full, modified, size)]
        } else {
            Seq::empty()
        },
        FsNode::Dir { name, entries } => if policy::is_excluded_dir(name@, excl) {
            Seq::empty()
        } else {
            scan_children_spec(full, entries@, excl)
        },
    }
}

pub open spec fn scan_children_spec(
    dir: Seq<char>,
    nodes: Seq<FsNode>,
    excl: Seq<Seq<char>>,
) -> Seq<EntryModel>
    decreases nodes,
{
    if nodes.len() == 0 {
        Seq::empty()
    } else {
        scan_node_spec(dir + seq!['/'] + node_name(nodes[0]), nodes[0], excl)
            + scan_children_spec(dir, nodes.drop_first(), excl)
    }
}

pub open spec fn scan_root_spec(root: RootTree, excl: Seq<Seq<char>>) -> Seq<EntryModel> {
    match root.node {
        Some(n) => scan_node_spec(root.path@, n, excl),
        None => Seq::empty(),
    }
}

pub open spec fn scan_roots_spec(roots: Seq<RootTree>, excl: Seq<Seq<char>>) -> Seq<EntryModel>
    decreases roots.len(),
{
    if roots.len() == 0 {
        Seq::empty()
    } else {
        scan_root_spec(roots[0], excl) + scan_roots_spec(roots.drop_first(), excl)
    }
}

pub proof fn lemma_scan_children_snoc(
    dir: Seq<char>,
    s: Seq<FsNode>,
    x: FsNode,
    excl: Seq<Seq<char>>,
)
    ensures
        scan_children_spec(dir, s + seq![x], excl) =~= scan_children_spec(dir, s, excl)
            + scan_node_spec(dir + seq!['/'] + node_name(x), x, excl),
    decreases s.len(),
{
    let piece = scan_node_spec(dir + seq!['/'] + node_name(x), x, excl);
    if s.len() == 0 {
        assert((s + seq![x])[0] == x);
        assert((s + seq![x]).drop_first() =~= Seq::<FsNode>::empty());
        assert(scan_children_spec(dir, (s + seq![x]).drop_first(), excl) == scan_children_spec(
            dir,
            Seq::<FsNode>::empty(),
            excl,
        ));
        assert(scan_children_spec(dir, s + seq![x], excl) =~= piece);
        assert(scan_children_spec(dir, s, excl) =~= Seq::<EntryModel>::empty());
        assert(scan_children_spec(dir, s, excl) + piece =~= piece);
    } else {
        assert((s + seq![x])[0] == s[0]);
        assert((s + seq![x]).drop_first() =~= s.drop_first() + seq![x]);
        assert(scan_children_spec(dir, (s + seq![x]).drop_first(), excl) == scan_children_spec(
            dir,
            s.drop_first() + seq![x],
            excl,
        ));
        lemma_scan_children_snoc(dir, s.drop_first(), x, excl);
        let head = scan_node_spec(dir + seq!['/'] + node_name(s[0]), s[0], excl);
        assert(scan_children_spec(dir, s + seq![x], excl) =~= head + (scan_children_spec(
            dir,
            s.drop_first(),
            excl,
        ) + piece));
        assert(head + (scan_children_spec(dir, s.drop_first(), excl) + piece) =~= (head
            + scan_children_spec(dir, s.drop_first(), excl)) + piece);
        assert(scan_children_spec(dir, s, excl) =~= head + scan_children_spec(
            dir,
            s.drop_first(),
            excl,
        ));
    }
}

pub proof fn lemma_scan_roots_snoc(s: Seq<RootTree>, x: RootTree, excl: Seq<Seq<char>>)
    ensures
        scan_roots_spec(s + seq![x], excl) =~= scan_roots_spec(s, excl) + scan_root_spec(x, excl),
    decreases s.len(),
{
    let piece = scan_root_spec(x, excl);
    if s.len() == 0 {
        assert((s + seq![x])[0] == x);
        assert((s + seq![x]).drop_first() =~= Seq::<RootTree>::empty());
        assert(scan_roots_spec((s + seq![x]).drop_first(), excl) == scan_roots_spec(
            Seq::<RootTree>::empty(),
            excl,
        ));
        assert(scan_roots_spec(s + seq![x], excl) =~= piece);
        assert(scan_roots_spec(s, excl) =~= Seq::<EntryModel>::empty());
        assert(scan_roots_spec(s, excl) + piece =~= piece);
    } else {
        assert((s + seq![x])[0] == s[0]);
        assert((s + seq![x]).drop_first() =~= s.drop_first() + seq![x]);
        assert(scan_roots_spec((s + seq![x]).drop_first(), excl) == scan_roots_spec(
            s.drop_first() + seq![x],
            excl,
        ));
        lemma_scan_roots_snoc(s.drop_first(), x, excl);
        let head = scan_root_spec(s[0], excl);
        assert(scan_roots_spec(s + seq![x], excl) =~= head + (scan_roots_spec(
            s.drop_first(),
            excl,
        ) + piece));
        assert(head + (scan_roots_spec(s.drop_first(), excl) + piece) =~= (head + scan_roots_spec(
            s.drop_first(),
            excl,
        )) + piece);
        assert(scan_roots_spec(s, excl) =~= head + scan_roots_spec(s.drop_first(), excl));
    }
}

fn node_name_exec(n: &FsNode) -> (r: &str)
    ensures
        r@ == node_name(*n),
{
    match n {
        FsNode::File { name, .. } => name.as_str(),
        FsNode::Dir { name, .. } => name.as_str(),
    }
}

#[verifier::loop_isolation(false)]
fn scan_node(node: &FsNode, full: &str, exclusions: &Vec<String>, out: &mut Vec<FileEntry>)
    ensures
        final(out).deep_view() =~= old(out).deep_view() + scan_node_spec(
            full@,
            *node,
            exclusions.deep_view(),
        ),
    decreases *node,
{
    let ghost excl = exclusions.deep_view();
    match node {
        FsNode::File { name: _, modified, size } => {
            if policy::is_markdown_file(full) && !policy::path_is_excluded(full, exclusions) {
                let name = policy::file_name(full);
                let path = full.to_owned();
                let e = FileEntry { path, name, modified: *modified, size: *size };
                proof {
                    assert(e@ =~= entry_at(full@, *modified, *size));
                }
                out.push(e);
                proof {
                    assert(out.deep_view() =~= old(out).deep_view() + scan_node_spec(
                        full@,
                        *node,
                        excl,
                    ));
                }
            } else {
                proof {
                    assert(out.deep_view() =~= old(out).deep_view()
                        + Seq::<EntryModel>::empty());
                }
            }
        },
        FsNode::Dir { name, entries } => {
            if policy::should_exclude(name.as_str(), exclusions) {
                proof {
                    assert(out.deep_view() =~= old(out).deep_view()
                        + Seq::<EntryModel>::empty());
                }
            } else {
                let mut i: usize = 0;
                while i < entries.len()
                    invariant
                        i <= entries.len(),
                        excl == exclusions.deep_view(),
                        out.deep_view() =~= old(out).deep_view() + scan_children_spec(
                            full@,
                            entries@.subrange(0, i as int),
                            excl,
                        ),
                    decreases entries.len() - i,
                {
                    let ghost before = out.deep_view();
                    let child = &entries[i];
                    let child_name = node_name_exec(child);
                    let child_full = policy::join_path(full, child_name);
                    proof {
                        assert(decreases_to!(*node => node->Dir_entries));
                        assert(node->Dir_entries == *entries);
                        assert(decreases_to!(*entries => entries@));
                        assert(decreases_to!(entries@ => entries@[i as int]));
                    }
                    scan_node(child, child_full.as_str(), exclusions, out);
                    proof {
                        lemma_scan_children_snoc(
                            full@,
                            entries@.subrange(0, i as int),
                            entries@[i as int],
                            excl,
                        );
                        assert(entries@.subrange(0, i as int) + seq![entries@[i as int]]
                            =~= entries@.subrange(0, (i + 1) as int));
                        assert(out.deep_view() =~= (old(out).deep_view() + scan_children_spec(
                            full@,
                            entries@.subrange(0, i as int),
                            excl,
                        )) + scan_node_spec(child_full@, entries@[i as int], excl));
                        assert(out.deep_view() =~= old(out).deep_view() + scan_children_spec(
                            full@,
                            entries@.subrange(0, (i + 1) as int),
                            excl,
                        ));
                    }
                    i += 1;
                }
                proof {
                    assert(entries@.subrange(0, entries@.len() as int) =~= entries@);
                }
            }
        },
    }
}

/// One-shot scan over pre-expanded roots and their observed subtrees: prunes
/// excluded directories before descending, keeps exactly the Markdown files,
/// and returns the entries sorted by `modified` descending, ties in traversal
/// order. Missing roots contribute nothing, and the call always succeeds.
#[verifier::loop_isolation(false)]
pub fn scan_directories(roots: &Vec<RootTree>, user_exclusions: &Vec<String>) -> (r: Result<
    Vec<FileEntry>,
    String,
>)
    ensures
        r is Ok,
        r->Ok_0.deep_view() == sorting::sort_by_modified_spec(
            scan_roots_spec(roots@, full_exclusions(user_exclusions.deep_view())),
        ),
{
    let excl = effective_exclusions(user_exclusions);
    let mut out: Vec<FileEntry> = Vec::new();
    let mut i: usize = 0;
    while i < roots.len()
        invariant
            i <= roots.len(),
            excl.deep_view() == full_exclusions(user_exclusions.deep_view()),
            out.deep_view() =~= scan_roots_spec(roots@.subrange(0, i as int), excl.deep_view()),
        decreases roots.len() - i,
    {
        let ghost before = out.deep_view();
        let root = &roots[i];
        match &root.node {
            Some(n) => {
                scan_node(n, root.path.as_str(), &excl, &mut out);
            },
            None => {},
        }
        proof {
            assert(out.deep_view() =~= before + scan_root_spec(roots@[i as int], excl.deep_view()));
            lemma_scan_roots_snoc(
                roots@.subrange(0, i as int),
                roots@[i as int],
                excl.deep_view(),
            );
            assert(roots@.subrange(0, i as int) + seq![roots@[i as int]] =~= roots@.subrange(
                0,
                (i + 1) as int,
            ));
        }
        i += 1;
    }
    proof {
        assert(roots@.subrange(0, roots@.len() as int) =~= roots@);
    }
    Ok(sorting::sort_entries(out))
}

pub open spec fn no_slash(name: Seq<char>) -> bool {
    forall|i: int| 0 <= i < name.len() ==> name[i] != '/'
}

/// A well-formed observed tree, as one directory read yields it: every name
/// is separator-free, and siblings carry pairwise distinct names.
pub open spec fn wf_node(node: FsNode) -> bool
    decreases node,
{
    match node {
        FsNode::File { name, .. } => no_slash(name@),
        FsNode::Dir { name, entries } => no_slash(name@) && wf_children(entries@),
    }
}

pub open spec fn wf_children(nodes: Seq<FsNode>) -> bool
    decreases nodes,
{
    nodes.len() == 0 || (wf_node(nodes[0]) && (forall|j: int|
        1 <= j < nodes.len() ==> node_name(#[trigger] nodes[j]) != node_name(nodes[0]))
        && wf_children(nodes.drop_first()))
}

proof fn lemma_wf_node_name(node: FsNode)
    requires
        wf_node(node),
    ensures
        no_slash(node_name(node)),
{
    match node {
        FsNode::File { .. } => {},
        FsNode::Dir { .. } => {},
    }
}

/// A scan yields no entry whose path contains an excluded component: the
/// per-file path test prunes hidden file names and excluded components in the
/// configured root path alike.
pub proof fn lemma_scan_node_not_excluded(full: Seq<char>, node: FsNode, excl: Seq<Seq<char>>)
    ensures
        forall|i: int|
            0 <= i < scan_node_spec(full, node, excl).len() ==> !policy::is_excluded_path(
                #[trigger] scan_node_spec(full, node, excl)[i].path,
                excl,
            ),
    decreases node,
{
    match node {
        FsNode::Dir { name, entries } => {
            if !policy::is_excluded_dir(name@, excl) {
                lemma_scan_children_not_excluded(full, entries@, excl);
            }
        },
        FsNode::File { .. } => {},
    }
    assert forall|i: int|
        0 <= i < scan_node_spec(full, node, excl).len() implies !policy::is_excluded_path(
        #[trigger] scan_node_spec(full, node, excl)[i].path,
        excl,
    ) by {
        match node {
            FsNode::File { name: _, modified, size } => {
                assert(scan_node_spec(full, node, excl)[i] == entry_at(full, modified, size));
                assert(scan_node_spec(full, node, excl)[i].path == full);
            },
            FsNode::Dir { name, entries } => {
                assert(scan_node_spec(full, node, excl) == scan_children_spec(
                    full,
                    entries@,
                    excl,
                ));
                assert(!policy::is_excluded_path(
                    scan_children_spec(full, entries@, excl)[i].path,
                    excl,
                ));
            },
        }
    }
}

pub proof fn lemma_scan_children_not_excluded(
    dir: Seq<char>,
    nodes: Seq<FsNode>,
    excl: Seq<Seq<char>>,
)
    ensures
        forall|i: int|
            0 <= i < scan_children_spec(dir, nodes, excl).len() ==> !policy::is_excluded_path(
                #[trigger] scan_children_spec(dir, nodes, excl)[i].path,
                excl,
            ),
    decreases nodes,
{
    if nodes.len() > 0 {
        let child = nodes[0];
        let child_full = dir + seq!['/'] + node_name(child);
        let head = scan_node_spec(child_full, child, excl);
        let tail = scan_children_spec(dir, nodes.drop_first(), excl);
        lemma_scan_children_not_excluded(dir, nodes.drop_first(), excl);
        lemma_scan_node_not_excluded(child_full, child, excl);
        assert forall|i: int|
            0 <= i < scan_children_spec(dir, nodes, excl).len() implies !policy::is_excluded_path(
            scan_children_spec(dir, nodes, excl)[i].path,
            excl,
        ) by {
            assert(scan_children_spec(dir, nodes, excl) == head + tail);
            if i < head.len() {
                assert(scan_children_spec(dir, nodes, excl)[i] == head[i]);
            } else {
                assert(scan_children_spec(dir, nodes, excl)[i] == tail[i - head.len()]);
            }
        }
    }
}

/// No entry the whole scan yields has a path with an excluded component, for
/// every root set and every tree.
pub proof fn lemma_scan_no_excluded_components(roots: Seq<RootTree>, excl: Seq<Seq<char>>)
    ensures
        forall|i: int|
            0 <= i < scan_roots_spec(roots, excl).len() ==> !policy::is_excluded_path(
                #[trigger] scan_roots_spec(roots, excl)[i].path,
                excl,
            ),
    decreases roots.len(),
{
    if roots.len() > 0 {
        let head = scan_root_spec(roots[0], excl);
        let tail = scan_roots_spec(roots.drop_first(), excl);
        assert(forall|k: int|
            0 <= k < roots.drop_first().len() ==> roots.drop_first()[k] == roots[k + 1]);
        lemma_scan_no_excluded_components(roots.drop_first(), excl);
        match roots[0].node {
            Some(n) => {
                lemma_scan_node_not_excluded(roots[0].path@, n, excl);
            },
            None => {},
        }
        assert forall|i: int|
            0 <= i < scan_roots_spec(roots, excl).len() implies !policy::is_excluded_path(
            scan_roots_spec(roots, excl)[i].path,
            excl,
        ) by {
            assert(scan_roots_spec(roots, excl) == head + tail);
            if i < head.len() {
                assert(scan_roots_spec(roots, excl)[i] == head[i]);
            } else {
                assert(scan_roots_spec(roots, excl)[i] == tail[i - head.len()]);
            }
        }
    }
}

/// Whether a clean scan would surface `em` from the node at `full`: some
/// Markdown-named file lies below it, past no excluded directory, with
/// exactly this path, name and metadata.
pub open spec fn tree_has_entry(
    full: Seq<char>,
    node: FsNode,
    excl: Seq<Seq<char>>,
    em: EntryModel,
) -> bool
    decreases node,
{
    match node {
        FsNode::File { name: _, modified, size } => policy::is_markdown_path(full)
            && !policy::is_excluded_path(full, excl) && em == entry_at(full, modified, size),
        FsNode::Dir { name, entries } => !policy::is_excluded_dir(name@, excl)
            && children_have_entry(full, entries@, excl, em),
    }
}

pub open spec fn children_have_entry(
    dir: Seq<char>,
    nodes: Seq<FsNode>,
    excl: Seq<Seq<char>>,
    em: EntryModel,
) -> bool
    decreases nodes,
{
    nodes.len() > 0 && (tree_has_entry(dir + seq!['/'] + node_name(nodes[0]), nodes[0], excl, em)
        || children_have_entry(dir, nodes.drop_first(), excl, em))
}

pub open spec fn root_has_entry(root: RootTree, excl: Seq<Seq<char>>, em: EntryModel) -> bool {
    match root.node {
        Some(n) => tree_has_entry(root.path@, n, excl, em),
        None => false,
    }
}

/// A scan yields exactly the entries the trees hold: membership in the scan
/// of one node coincides with `tree_has_entry`.
pub proof fn lemma_scan_node_membership(
    full: Seq<char>,
    node: FsNode,
    excl: Seq<Seq<char>>,
    em: EntryModel,
)
    ensures
        scan_node_spec(full, node, excl).contains(em) == tree_has_entry(full, node, excl, em),
    decreases node,
{
    match node {
        FsNode::File { name: _, modified, size } => {
            if policy::is_markdown_path(full) && !policy::is_excluded_path(full, excl) {
                let single = seq![entry_at(full, modified, size)];
                assert(single[0] == entry_at(full, modified, size));
                if em == entry_at(full, modified, size) {
                    assert(single.contains(em));
                }
            }
        },
        FsNode::Dir { name, entries } => {
            if !policy::is_excluded_dir(name@, excl) {
                lemma_scan_children_membership(full, entries@, excl, em);
            }
        },
    }
}

pub proof fn lemma_scan_children_membership(
    dir: Seq<char>,
    nodes: Seq<FsNode>,
    excl: Seq<Seq<char>>,
    em: EntryModel,
)
    ensures
        scan_children_spec(dir, nodes, excl).contains(em) == children_have_entry(
            dir,
            nodes,
            excl,
            em,
        ),
    decreases nodes,
{
    if nodes.len() > 0 {
        let child_full = dir + seq!['/'] + node_name(nodes[0]);
        let head = scan_node_spec(child_full, nodes[0], excl);
        let tail = scan_children_spec(dir, nodes.drop_first(), excl);
        lemma_scan_node_membership(child_full, nodes[0], excl, em);
        lemma_scan_children_membership(dir, nodes.drop_first(), excl, em);
        sorting::lemma_contains_concat(head, tail, em);
    }
}

/// The whole scan surfaces `em` exactly when some root's tree holds it.
pub proof fn lemma_scan_roots_membership(roots: Seq<RootTree>, excl: Seq<Seq<char>>, em: EntryModel)
    ensures
        scan_roots_spec(roots, excl).contains(em) == exists|k: int|
            0 <= k < roots.len() && root_has_entry(#[trigger] roots[k], excl, em),
    decreases roots.len(),
{
    if roots.len() == 0 {
    } else {
        let head = scan_root_spec(roots[0], excl);
        let tail = scan_roots_spec(roots.drop_first(), excl);
        match roots[0].node {
            Some(n) => {
                lemma_scan_node_membership(roots[0].path@, n, excl, em);
            },
            None => {},
        }
        assert(head.contains(em) == root_has_entry(roots[0], excl, em));
        lemma_scan_roots_membership(roots.drop_first(), excl, em);
        sorting::lemma_contains_concat(head, tail, em);
        if scan_roots_spec(roots, excl).contains(em) {
            if head.contains(em) {
                assert(root_has_entry(roots[0], excl, em));
            } else {
                let k = choose|k: int|
                    0 <= k < roots.drop_first().len() && root_has_entry(
                        #[trigger] roots.drop_first()[k],
                        excl,
                        em,
                    );
                assert(roots.drop_first()[k] == roots[k + 1]);
                assert(root_has_entry(roots[k + 1], excl, em));
            }
        }
        if exists|k: int| 0 <= k < roots.len() && root_has_entry(#[trigger] roots[k], excl, em) {
            let k = choose|k: int|
                0 <= k < roots.len() && root_has_entry(#[trigger] roots[k], excl, em);
            if k == 0 {
                assert(head.contains(em));
            } else {
                assert(roots.drop_first()[k - 1] == roots[k]);
                assert(tail.contains(em));
            }
        }
    }
}

/// Everything a tree surfaces is Markdown-named, and carries its own final
/// path component as its display name.
pub proof fn lemma_tree_entry_markdown(
    full: Seq<char>,
    node: FsNode,
    excl: Seq<Seq<char>>,
    em: EntryModel,
)
    requires
        tree_has_entry(full, node, excl, em),
    ensures
        policy::is_markdown_path(em.path),
        em.name == policy::file_name_of(em.path),
    decreases node,
{
    match node {
        FsNode::File { .. } => {},
        FsNode::Dir { name, entries } => {
            lemma_children_entry_markdown(full, entries@, excl, em);
        },
    }
}

pub proof fn lemma_children_entry_markdown(
    dir: Seq<char>,
    nodes: Seq<FsNode>,
    excl: Seq<Seq<char>>,
    em: EntryModel,
)
    requires
        children_have_entry(dir, nodes, excl, em),
    ensures
        policy::is_markdown_path(em.path),
        em.name == policy::file_name_of(em.path),
    decreases nodes,
{
    let child_full = dir + seq!['/'] + node_name(nodes[0]);
    if tree_has_entry(child_full, nodes[0], excl, em) {
        lemma_tree_entry_markdown(child_full, nodes[0], excl, em);
    } else {
        lemma_children_entry_markdown(dir, nodes.drop_first(), excl, em);
    }
}

proof fn lemma_wf_children_index(nodes: Seq<FsNode>, idx: int)
    requires
        wf_children(nodes),
        0 <= idx < nodes.len(),
    ensures
        wf_node(nodes[idx]),
    decreases nodes,
{
    if idx > 0 {
        lemma_wf_children_index(nodes.drop_first(), idx - 1);
        assert(nodes.drop_first()[idx - 1] == nodes[idx]);
    }
}

/// Every entry a node's scan yields lies at or below the node's path.
pub proof fn lemma_scan_node_under(full: Seq<char>, node: FsNode, excl: Seq<Seq<char>>)
    ensures
        forall|i: int|
            0 <= i < scan_node_spec(full, node, excl).len() ==> policy::path_under(
                full,
                #[trigger] scan_node_spec(full, node, excl)[i].path,
            ),
    decreases node,
{
    match node {
        FsNode::Dir { name, entries } => {
            if !policy::is_excluded_dir(name@, excl) {
                lemma_scan_children_under(full, entries@, excl);
            }
        },
        FsNode::File { .. } => {},
    }
    assert forall|i: int|
        0 <= i < scan_node_spec(full, node, excl).len() implies policy::path_under(
        full,
        #[trigger] scan_node_spec(full, node, excl)[i].path,
    ) by {
        match node {
            FsNode::File { name: _, modified, size } => {
                assert(scan_node_spec(full, node, excl)[i] == entry_at(full, modified, size));
            },
            FsNode::Dir { name, entries } => {
                assert(scan_node_spec(full, node, excl) == scan_children_spec(
                    full,
                    entries@,
                    excl,
                ));
                let em = scan_children_spec(full, entries@, excl)[i];
                let k = choose|k: int|
                    0 <= k < entries@.len() && policy::path_under(
                        full + seq!['/'] + node_name(entries@[k]),
                        em.path,
                    );
                policy::lemma_under_child(full, node_name(entries@[k]), em.path);
            },
        }
    }
}

pub proof fn lemma_scan_children_under(dir: Seq<char>, nodes: Seq<FsNode>, excl: Seq<Seq<char>>)
    ensures
        forall|i: int|
            0 <= i < scan_children_spec(dir, nodes, excl).len() ==> exists|k: int|
                0 <= k < nodes.len() && policy::path_under(
                    dir + seq!['/'] + node_name(nodes[k]),
                    #[trigger] scan_children_spec(dir, nodes, excl)[i].path,
                ),
    decreases nodes,
{
    if nodes.len() > 0 {
        let child_full = dir + seq!['/'] + node_name(nodes[0]);
        let head = scan_node_spec(child_full, nodes[0], excl);
        let tail = scan_children_spec(dir, nodes.drop_first(), excl);
        lemma_scan_node_under(child_full, nodes[0], excl);
        lemma_scan_children_under(dir, nodes.drop_first(), excl);
        assert forall|i: int|
            0 <= i < scan_children_spec(dir, nodes, excl).len() implies exists|k: int|
                0 <= k < nodes.len() && policy::path_under(
                    dir + seq!['/'] + node_name(nodes[k]),
                    #[trigger] scan_children_spec(dir, nodes, excl)[i].path,
                ) by {
            assert(scan_children_spec(dir, nodes, excl) == head + tail);
            let em = scan_children_spec(dir, nodes, excl)[i];
            if i < head.len() {
                assert(em == head[i]);
                assert(0 <= 0 < nodes.len() && policy::path_under(
                    dir + seq!['/'] + node_name(nodes[0]),
                    em.path,
                ));
            } else {
                assert(em == tail[i - head.len()]);
                let k = choose|k: int|
                    0 <= k < nodes.drop_first().len() && policy::path_under(
                        dir + seq!['/'] + node_name(nodes.drop_first()[k]),
                        tail[i - head.len()].path,
                    );
                assert(nodes.drop_first()[k] == nodes[k + 1]);
                assert(0 <= k + 1 < nodes.len() && policy::path_under(
                    dir + seq!['/'] + node_name(nodes[k + 1]),
                    em.path,
                ));
            }
        }
    }
}

/// A scan of a well-formed tree yields pairwise distinct paths.
pub proof fn lemma_scan_node_unique(full: Seq<char>, node: FsNode, excl: Seq<Seq<char>>)
    requires
        wf_node(node),
    ensures
        sorting::unique_paths(scan_node_spec(full, node, excl)),
    decreases node,
{
    match node {
        FsNode::Dir { name, entries } => {
            if !policy::is_excluded_dir(name@, excl) {
                lemma_scan_children_unique(full, entries@, excl);
                assert(scan_node_spec(full, node, excl) == scan_children_spec(
                    full,
                    entries@,
                    excl,
                ));
            }
        },
        FsNode::File { .. } => {},
    }
}

pub proof fn lemma_scan_children_unique(dir: Seq<char>, nodes: Seq<FsNode>, excl: Seq<Seq<char>>)
    requires
        wf_children(nodes),
    ensures
        sorting::unique_paths(scan_children_spec(dir, nodes, excl)),
    decreases nodes,
{
    if nodes.len() > 0 {
        let child_full = dir + seq!['/'] + node_name(nodes[0]);
        let head = scan_node_spec(child_full, nodes[0], excl);
        let tail = scan_children_spec(dir, nodes.drop_first(), excl);
        let whole = scan_children_spec(dir, nodes, excl);
        lemma_scan_node_unique(child_full, nodes[0], excl);
        lemma_scan_children_unique(dir, nodes.drop_first(), excl);
        lemma_scan_node_under(child_full, nodes[0], excl);
        lemma_scan_children_under(dir, nodes.drop_first(), excl);
        lemma_wf_node_name(nodes[0]);
        assert forall|i: int, j: int| 0 <= i < j < whole.len() implies whole[i].path
            != whole[j].path by {
            assert(whole == head + tail);
            if j < head.len() {
                assert(whole[i] == head[i] && whole[j] == head[j]);
            } else if i >= head.len() {
                assert(whole[i] == tail[i - head.len()] && whole[j] == tail[j - head.len()]);
            } else {
                assert(whole[i] == head[i] && whole[j] == tail[j - head.len()]);
                assert(policy::path_under(child_full, head[i].path));
                let k = choose|k: int|
                    0 <= k < nodes.drop_first().len() && policy::path_under(
                        dir + seq!['/'] + node_name(nodes.drop_first()[k]),
                        tail[j - head.len()].path,
                    );
                assert(nodes.drop_first()[k] == nodes[k + 1]);
                assert(node_name(nodes[k + 1]) != node_name(nodes[0]));
                lemma_wf_children_index(nodes, k + 1);
                lemma_wf_node_name(nodes[k + 1]);
                policy::lemma_under_siblings_disjoint(
                    dir,
                    node_name(nodes[0]),
                    node_name(nodes[k + 1]),
                    head[i].path,
                );
            }
        }
    }
}

pub open spec fn wf_root(root: RootTree) -> bool {
    match root.node {
        Some(n) => wf_node(n),
        None => true,
    }
}

/// Root paths that neither repeat nor nest: no root's path lies at or below
/// another's.
pub open spec fn roots_disjoint(roots: Seq<RootTree>) -> bool {
    forall|i: int, j: int|
        0 <= i < roots.len() && 0 <= j < roots.len() && i != j ==> !policy::path_under(
            (#[trigger] roots[i]).path@,
            (#[trigger] roots[j]).path@,
        )
}

pub proof fn lemma_scan_root_under(root: RootTree, excl: Seq<Seq<char>>)
    ensures
        forall|i: int|
            0 <= i < scan_root_spec(root, excl).len() ==> policy::path_under(
                root.path@,
                #[trigger] scan_root_spec(root, excl)[i].path,
            ),
{
    match root.node {
        Some(n) => {
            lemma_scan_node_under(root.path@, n, excl);
        },
        None => {},
    }
    assert forall|i: int|
        0 <= i < scan_root_spec(root, excl).len() implies policy::path_under(
        root.path@,
        #[trigger] scan_root_spec(root, excl)[i].path,
    ) by {
        match root.node {
            Some(n) => {
                assert(scan_root_spec(root, excl) == scan_node_spec(root.path@, n, excl));
                assert(policy::path_under(
                    root.path@,
                    scan_node_spec(root.path@, n, excl)[i].path,
                ));
            },
            None => {},
        }
    }
}

pub proof fn lemma_scan_roots_under(roots: Seq<RootTree>, excl: Seq<Seq<char>>)
    ensures
        forall|i: int|
            0 <= i < scan_roots_spec(roots, excl).len() ==> exists|k: int|
                0 <= k < roots.len() && policy::path_under(
                    roots[k].path@,
                    #[trigger] scan_roots_spec(roots, excl)[i].path,
                ),
    decreases roots.len(),
{
    if roots.len() > 0 {
        let head = scan_root_spec(roots[0], excl);
        let tail = scan_roots_spec(roots.drop_first(), excl);
        lemma_scan_root_under(roots[0], excl);
        lemma_scan_roots_under(roots.drop_first(), excl);
        assert forall|i: int|
            0 <= i < scan_roots_spec(roots, excl).len() implies exists|k: int|
                0 <= k < roots.len() && policy::path_under(
                    roots[k].path@,
                    #[trigger] scan_roots_spec(roots, excl)[i].path,
                ) by {
            assert(scan_roots_spec(roots, excl) == head + tail);
            let em = scan_roots_spec(roots, excl)[i];
            if i < head.len() {
                assert(em == head[i]);
                assert(0 <= 0 < roots.len() && policy::path_under(roots[0].path@, em.path));
            } else {
                assert(em == tail[i - head.len()]);
                let k = choose|k: int|
                    0 <= k < roots.drop_first().len() && policy::path_under(
                        roots.drop_first()[k].path@,
                        tail[i - head.len()].path,
                    );
                assert(roots.drop_first()[k] == roots[k + 1]);
                assert(0 <= k + 1 < roots.len() && policy::path_under(
                    roots[k + 1].path@,
                    em.path,
                ));
            }
        }
    }
}

/// The flat scan of well-formed trees over roots that neither repeat nor nest
/// yields pairwise distinct paths.
pub proof fn lemma_scan_roots_unique(roots: Seq<RootTree>, excl: Seq<Seq<char>>)
    requires
        forall|k: int| 0 <= k < roots.len() ==> wf_root(#[trigger] roots[k]),
        roots_disjoint(roots),
    ensures
        sorting::unique_paths(scan_roots_spec(roots, excl)),
    decreases roots.len(),
{
    if roots.len() > 0 {
        let head = scan_root_spec(roots[0], excl);
        let tail = scan_roots_spec(roots.drop_first(), excl);
        let whole = scan_roots_spec(roots, excl);
        assert(forall|k: int|
            0 <= k < roots.drop_first().len() ==> roots.drop_first()[k] == roots[k + 1]);
        lemma_scan_roots_unique(roots.drop_first(), excl);
        match roots[0].node {
            Some(n) => {
                lemma_scan_node_unique(roots[0].path@, n, excl);
            },
            None => {},
        }
        lemma_scan_root_under(roots[0], excl);
        lemma_scan_roots_under(roots.drop_first(), excl);
        assert forall|i: int, j: int| 0 <= i < j < whole.len() implies whole[i].path
            != whole[j].path by {
            assert(whole == head + tail);
            if j < head.len() {
                assert(whole[i] == head[i] && whole[j] == head[j]);
                match roots[0].node {
                    Some(n) => {
                        assert(head == scan_node_spec(roots[0].path@, n, excl));
                    },
                    None => {},
                }
            } else if i >= head.len() {
                assert(whole[i] == tail[i - head.len()] && whole[j] == tail[j - head.len()]);
            } else {
                assert(whole[i] == head[i] && whole[j] == tail[j - head.len()]);
                assert(policy::path_under(roots[0].path@, head[i].path));
                let k = choose|k: int|
                    0 <= k < roots.drop_first().len() && policy::path_under(
                        roots.drop_first()[k].path@,
                        tail[j - head.len()].path,
                    );
                assert(roots.drop_first()[k] == roots[k + 1]);
                if head[i].path == tail[j - head.len()].path {
                    let a = roots[0].path@;
                    let b = roots[k + 1].path@;
                    assert(!policy::path_under(a, b));
                    assert(!policy::path_under(b, a));
                    if a.len() <= b.len() {
                        policy::lemma_under_common(a, b, head[i].path);
                    } else {
                        policy::lemma_under_common(b, a, head[i].path);
                    }
                }
            }
        }
    }
}

/// No two entries of the snapshot share a path: §3's Snapshot uniqueness,
/// given well-formed trees and roots that neither repeat nor nest.
pub proof fn lemma_snapshot_unique_paths(roots: Seq<RootTree>, excl: Seq<Seq<char>>)
    requires
        forall|k: int| 0 <= k < roots.len() ==> wf_root(#[trigger] roots[k]),
        roots_disjoint(roots),
    ensures
        sorting::unique_paths(sorting::sort_by_modified_spec(scan_roots_spec(roots, excl))),
{
    lemma_scan_roots_unique(roots, excl);
    sorting::lemma_sort_unique_paths(scan_roots_spec(roots, excl));
}

/// The snapshot `scan_directories` returns is ordered by `modified`, newest
/// first, and entries sharing a modification time keep their traversal order.
pub proof fn lemma_snapshot_sorted(roots: Seq<RootTree>, excl: Seq<Seq<char>>, v: u64)
    ensures
        sorting::sorted_desc(sorting::sort_by_modified_spec(scan_roots_spec(roots, excl))),
        sorting::with_modified(sorting::sort_by_modified_spec(scan_roots_spec(roots, excl)), v)
            =~= sorting::with_modified(scan_roots_spec(roots, excl), v),
{
    sorting::lemma_sort_sorted(scan_roots_spec(roots, excl));
    sorting::lemma_sort_stable(scan_roots_spec(roots, excl), v);
}

/// The snapshot holds an entry exactly when some root's tree holds it: all the
/// Markdown files under the roots, transitively, modulo exclusions, and
/// nothing else.
pub proof fn lemma_snapshot_membership(roots: Seq<RootTree>, excl: Seq<Seq<char>>, em: EntryModel)
    ensures
        sorting::sort_by_modified_spec(scan_roots_spec(roots, excl)).contains(em) == exists|k: int|
            0 <= k < roots.len() && root_has_entry(#[trigger] roots[k], excl, em),
{
    sorting::lemma_sort_contains(scan_roots_spec(roots, excl), em);
    lemma_scan_roots_membership(roots, excl, em);
}

/// No entry of the snapshot carries an excluded component in its path, for
/// every root set and every tree.
pub proof fn lemma_snapshot_not_excluded(roots: Seq<RootTree>, excl: Seq<Seq<char>>, em: EntryModel)
    requires
        sorting::sort_by_modified_spec(scan_roots_spec(roots, excl)).contains(em),
    ensures
        !policy::is_excluded_path(em.path, excl),
{
    sorting::lemma_sort_contains(scan_roots_spec(roots, excl), em);
    lemma_scan_no_excluded_components(roots, excl);
    let flat = scan_roots_spec(roots, excl);
    let i = choose|i: int| 0 <= i < flat.len() && flat[i] == em;
    assert(!policy::is_excluded_path(flat[i].path, excl));
}

pub open spec fn default_settings_exclusions() -> Seq<Seq<char>> {
    seq!["node_modules"@, ".git"@, "vendor"@, "dist"@, "build"@]
}

/// The settings used until the external store supplies real ones: no
/// sources, the stock exclusions, the system theme, no last-opened file.
pub fn initial_settings() -> (s: Settings)
    ensures
        s.sources@.len() == 0,
        s.exclusions.deep_view() == default_settings_exclusions(),
        s.theme@ == "system"@,
        s.last_opened_file is None,
{
    let mut exclusions: Vec<String> = Vec::new();
    exclusions.push("node_modules".to_owned());
    exclusions.push(".git".to_owned());
    exclusions.push("vendor".to_owned());
    exclusions.push("dist".to_owned());
    exclusions.push("build".to_owned());
    proof {
        assert(exclusions.deep_view() =~= default_settings_exclusions());
    }
    Settings { sources: Vec::new(), exclusions, theme: "system".to_owned(), last_opened_file: None }
}

pub fn get_settings() -> (r: Result<Settings, String>)
    ensures
        r is Ok,
        r->Ok_0.sources@.len() == 0,
        r->Ok_0.exclusions.deep_view() == default_settings_exclusions(),
        r->Ok_0.theme@ == "system"@,
        r->Ok_0.last_opened_file is None,
{
    Ok(initial_settings())
}

/// Accepts a settings value; persisting it is the external store's concern
/// and nothing is recorded here yet.
pub fn save_settings(settings: Settings) -> (r: Result<(), String>)
    ensures
        r is Ok,
{
    let _ = settings;
    Ok(())
}

} // verus!
