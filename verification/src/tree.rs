//! The aggregation walk.
//!
//! The walk consumes a directory tree that has already been read from disk,
//! presented as plain values: every entry is a regular file with its byte
//! length, a directory with its entries in enumeration order, or something
//! else (a symlink, a device), which is ignored.  It produces the ownership
//! tree of aggregate sizes — one [`DirNode`] per directory, files contribute
//! size only — and the running totals for the whole tree.

use vstd::prelude::*;

verus! {

/// One filesystem entry, as read from disk: a regular file with its byte
/// length, a directory with its direct entries in enumeration order, or any
/// other kind of entry, which contributes nothing.
pub enum FsEntry {
    File { name: String, size: u64 },
    Dir { name: String, entries: Vec<FsEntry> },
    Other { name: String },
}

/// One directory in the aggregate tree: its display name, its aggregate byte
/// total (everything nested beneath it), and its child directories in the
/// order they were encountered.
pub struct DirNode {
    pub name: String,
    pub size: u64,
    pub children: Vec<DirNode>,
}

/// The running totals of a walk: how many regular files were seen anywhere,
/// and the grand byte total.
pub struct RunTotals {
    pub file_count: u64,
    pub total_size: u64,
}

/// The aggregate byte size of one entry: a file counts its length, a
/// directory counts everything beneath it, anything else counts nothing.
pub open spec fn entry_size(e: FsEntry) -> nat
    decreases e,
{
    match e {
        FsEntry::File { size, .. } => size as nat,
        FsEntry::Dir { entries, .. } => entries_size(entries@),
        FsEntry::Other { .. } => 0,
    }
}

/// The total byte size of a sequence of entries.
pub open spec fn entries_size(s: Seq<FsEntry>) -> nat
    decreases s,
{
    if s.len() == 0 {
        0
    } else {
        entry_size(s[0]) + entries_size(s.drop_first())
    }
}

/// How many regular files an entry holds, at any depth.
pub open spec fn entry_files(e: FsEntry) -> nat
    decreases e,
{
    match e {
        FsEntry::File { .. } => 1,
        FsEntry::Dir { entries, .. } => entries_files(entries@),
        FsEntry::Other { .. } => 0,
    }
}

/// How many regular files a sequence of entries holds, at any depth.
pub open spec fn entries_files(s: Seq<FsEntry>) -> nat
    decreases s,
{
    if s.len() == 0 {
        0
    } else {
        entry_files(s[0]) + entries_files(s.drop_first())
    }
}

/// The node `n` is exactly what the walk builds for the directory entry `e`:
/// the same name, the aggregate size of `e`, and one child node per direct
/// subdirectory of `e`, in order, each matching its own subtree.
pub open spec fn node_matches(n: DirNode, e: FsEntry) -> bool
    decreases e,
{
    match e {
        FsEntry::Dir { name, entries } => n.name@ == name@ && n.size == entry_size(e)
            && nodes_match(n.children@, entries@),
        _ => false,
    }
}

/// The nodes `ns` are exactly what the walk builds for the entry sequence
/// `es`: one node per directory entry, in order; files and other entries
/// contribute no node.
pub open spec fn nodes_match(ns: Seq<DirNode>, es: Seq<FsEntry>) -> bool
    decreases es,
{
    if es.len() == 0 {
        ns.len() == 0
    } else if es[0] is Dir {
        ns.len() > 0 && node_matches(ns[0], es[0]) && nodes_match(ns.drop_first(), es.drop_first())
    } else {
        nodes_match(ns, es.drop_first())
    }
}

/// Walks one entry: adds its contribution to the running totals and, for a
/// directory, builds its aggregate node.
fn walk_entry(e: &FsEntry, totals: &mut RunTotals) -> (r: (u64, Option<DirNode>))
    requires
        old(totals).total_size + entry_size(*e) <= u64::MAX,
        old(totals).file_count + entry_files(*e) <= u64::MAX,
    ensures
        r.0 == entry_size(*e),
        final(totals).total_size == old(totals).total_size + entry_size(*e),
        final(totals).file_count == old(totals).file_count + entry_files(*e),
        r.1 is Some <==> *e is Dir,
        *e is Dir ==> node_matches(r.1->0, *e),
    decreases *e,
{
    match e {
        FsEntry::File { name: _, size } => {
            totals.file_count = totals.file_count + 1;
            totals.total_size = totals.total_size + *size;
            (*size, None)
        },
        FsEntry::Other { name: _ } => (0, None),
        FsEntry::Dir { name, entries } => {
            let mut children: Vec<DirNode> = Vec::new();
            let mut my_size: u64 = 0;
            let ghost start = *totals;
            let mut i: usize = 0;
            while i < entries.len()
                invariant
                    *e is Dir,
                    *entries == (*e)->Dir_entries,
                    i <= entries@.len(),
                    start.total_size + entries_size(entries@) <= u64::MAX,
                    start.file_count + entries_files(entries@) <= u64::MAX,
                    my_size == entries_size(entries@.take(i as int)),
                    totals.total_size == start.total_size + entries_size(entries@.take(i as int)),
                    totals.file_count == start.file_count + entries_files(entries@.take(i as int)),
                    nodes_match(children@, entries@.take(i as int)),
                decreases entries@.len() - i,
            {
                proof {
                    lemma_entries_size_split(entries@, i as int);
                    lemma_entries_files_split(entries@, i as int);
                    lemma_entries_size_split(entries@.skip(i as int), 1);
                    lemma_entries_files_split(entries@.skip(i as int), 1);
                    assert(entries@.skip(i as int)[0] == entries@[i as int]);
                    assert(entries@.skip(i as int).take(1).drop_first()
                        =~= Seq::<FsEntry>::empty());
                    assert(entries@.skip(i as int).take(1)[0] == entries@[i as int]);
                    assert(decreases_to!(*e => (*e)->Dir_entries));
                    assert(decreases_to!(*entries => entries[i as int]));
                }
                let ghost prev_children = children@;
                let ghost prev_take = entries@.take(i as int);
                let (child_size, child_node) = walk_entry(&entries[i], totals);
                match child_node {
                    Some(c) => {
                        proof {
                            lemma_single_node_matches(c, entries@[i as int]);
                        }
                        children.push(c);
                        proof {
                            assert(children@ =~= prev_children + seq![children@.last()]);
                            lemma_nodes_match_append(
                                prev_children,
                                prev_take,
                                seq![children@.last()],
                                seq![entries@[i as int]],
                            );
                        }
                    },
                    None => {
                        proof {
                            assert(nodes_match(
                                Seq::<DirNode>::empty(),
                                seq![entries@[i as int]],
                            )) by {
                                assert(seq![entries@[i as int]][0] == entries@[i as int]);
                                assert(!(entries@[i as int] is Dir));
                                assert(seq![entries@[i as int]].drop_first()
                                    =~= Seq::<FsEntry>::empty());
                                assert(nodes_match(
                                    Seq::<DirNode>::empty(),
                                    Seq::<FsEntry>::empty(),
                                ));
                            }
                            assert(children@ =~= prev_children + Seq::<DirNode>::empty());
                            lemma_nodes_match_append(
                                prev_children,
                                prev_take,
                                Seq::<DirNode>::empty(),
                                seq![entries@[i as int]],
                            );
                        }
                    },
                }
                my_size = my_size + child_size;
                i = i + 1;
                proof {
                    assert(entries@.take(i as int) =~= prev_take + seq![entries@[i - 1]]);
                    lemma_entries_size_split(entries@.take(i as int), i - 1);
                    lemma_entries_files_split(entries@.take(i as int), i - 1);
                    assert(entries@.take(i as int).take(i - 1) =~= prev_take);
                    assert(entries@.take(i as int).skip(i - 1) =~= seq![entries@[i - 1]]);
                    assert(seq![entries@[i - 1]].drop_first() =~= Seq::<FsEntry>::empty());
                }
            }
            assert(entries@.take(entries@.len() as int) =~= entries@);
            (my_size, Some(DirNode { name: name.clone(), size: my_size, children }))
        },
    }
}

/// The byte total of an entry sequence splits at any point: the total of
/// `s[..i]` plus the total of `s[i..]` gives the total of `s`.
proof fn lemma_entries_size_split(s: Seq<FsEntry>, i: int)
    requires
        0 <= i <= s.len(),
    ensures
        entries_size(s) == entries_size(s.take(i)) + entries_size(s.skip(i)),
    decreases i,
{
    if i == 0 {
        assert(s.take(0) =~= Seq::<FsEntry>::empty());
        assert(s.skip(0) =~= s);
    } else {
        lemma_entries_size_split(s.drop_first(), i - 1);
        assert(s.take(i).drop_first() =~= s.drop_first().take(i - 1));
        assert(s.skip(i) =~= s.drop_first().skip(i - 1));
        assert(s.take(i)[0] == s[0]);
    }
}

/// As `lemma_entries_size_split`, for the file counts.
proof fn lemma_entries_files_split(s: Seq<FsEntry>, i: int)
    requires
        0 <= i <= s.len(),
    ensures
        entries_files(s) == entries_files(s.take(i)) + entries_files(s.skip(i)),
    decreases i,
{
    if i == 0 {
        assert(s.take(0) =~= Seq::<FsEntry>::empty());
        assert(s.skip(0) =~= s);
    } else {
        lemma_entries_files_split(s.drop_first(), i - 1);
        assert(s.take(i).drop_first() =~= s.drop_first().take(i - 1));
        assert(s.skip(i) =~= s.drop_first().skip(i - 1));
        assert(s.take(i)[0] == s[0]);
    }
}

/// A directory node that matches its entry forms a matched singleton pair.
proof fn lemma_single_node_matches(n: DirNode, e: FsEntry)
    requires
        node_matches(n, e),
    ensures
        nodes_match(seq![n], seq![e]),
{
    assert(e is Dir);
    assert(seq![e][0] == e);
    assert(seq![n][0] == n);
    assert(seq![n].drop_first() =~= Seq::<DirNode>::empty());
    assert(seq![e].drop_first() =~= Seq::<FsEntry>::empty());
    assert(nodes_match(Seq::<DirNode>::empty(), Seq::<FsEntry>::empty()));
}

/// Matched node/entry sequences stay matched under concatenation.
proof fn lemma_nodes_match_append(
    ns1: Seq<DirNode>,
    es1: Seq<FsEntry>,
    ns2: Seq<DirNode>,
    es2: Seq<FsEntry>,
)
    requires
        nodes_match(ns1, es1),
        nodes_match(ns2, es2),
    ensures
        nodes_match(ns1 + ns2, es1 + es2),
    decreases es1.len(),
{
    if es1.len() == 0 {
        assert(ns1 + ns2 =~= ns2);
        assert(es1 + es2 =~= es2);
    } else if es1[0] is Dir {
        lemma_nodes_match_append(ns1.drop_first(), es1.drop_first(), ns2, es2);
        assert((es1 + es2)[0] == es1[0]);
        assert((ns1 + ns2)[0] == ns1[0]);
        assert(ns1.drop_first() + ns2 =~= (ns1 + ns2).drop_first());
        assert(es1.drop_first() + es2 =~= (es1 + es2).drop_first());
    } else {
        lemma_nodes_match_append(ns1, es1.drop_first(), ns2, es2);
        assert((es1 + es2)[0] == es1[0]);
        assert(es1.drop_first() + es2 =~= (es1 + es2).drop_first());
    }
}

/// The bytes of the regular files directly inside an entry sequence, not
/// counting anything nested in subdirectories.
pub open spec fn direct_files_size(s: Seq<FsEntry>) -> nat
    decreases s,
{
    if s.len() == 0 {
        0
    } else {
        (if s[0] is File {
            s[0]->File_size as nat
        } else {
            0
        }) + direct_files_size(s.drop_first())
    }
}

/// The aggregate sizes of the direct subdirectories of an entry sequence.
pub open spec fn subdirs_size(s: Seq<FsEntry>) -> nat
    decreases s,
{
    if s.len() == 0 {
        0
    } else {
        (if s[0] is Dir {
            entry_size(s[0])
        } else {
            0
        }) + subdirs_size(s.drop_first())
    }
}

/// The sum of the recorded sizes of a sequence of nodes.
pub open spec fn children_sizes(ns: Seq<DirNode>) -> nat
    decreases ns,
{
    if ns.len() == 0 {
        0
    } else {
        ns[0].size as nat + children_sizes(ns.drop_first())
    }
}

/// The total size of an entry sequence splits into the files directly inside
/// and the aggregates of the direct subdirectories; other entries add
/// nothing.
proof fn lemma_entries_size_parts(s: Seq<FsEntry>)
    ensures
        entries_size(s) == direct_files_size(s) + subdirs_size(s),
    decreases s.len(),
{
    if s.len() == 0 {
        assert(entries_size(s) == 0);
        assert(direct_files_size(s) == 0);
        assert(subdirs_size(s) == 0);
    } else {
        lemma_entries_size_parts(s.drop_first());
        assert(entries_size(s) == entry_size(s[0]) + entries_size(s.drop_first()));
        assert(direct_files_size(s) == (if s[0] is File {
            s[0]->File_size as nat
        } else {
            0
        }) + direct_files_size(s.drop_first()));
        assert(subdirs_size(s) == (if s[0] is Dir {
            entry_size(s[0])
        } else {
            0
        }) + subdirs_size(s.drop_first()));
        if s[0] is File {
            assert(entry_size(s[0]) == s[0]->File_size as nat);
        } else if s[0] is Dir {
        } else {
            assert(entry_size(s[0]) == 0);
        }
    }
}

/// Matched children carry exactly the aggregate sizes of the subdirectory
/// entries they stand for.
proof fn lemma_children_sizes_match(ns: Seq<DirNode>, es: Seq<FsEntry>)
    requires
        nodes_match(ns, es),
    ensures
        children_sizes(ns) == subdirs_size(es),
    decreases es.len(),
{
    if es.len() == 0 {
        assert(ns.len() == 0);
        assert(children_sizes(ns) == 0);
        assert(subdirs_size(es) == 0);
    } else if es[0] is Dir {
        lemma_children_sizes_match(ns.drop_first(), es.drop_first());
        assert(children_sizes(ns) == ns[0].size as nat + children_sizes(ns.drop_first()));
        assert(subdirs_size(es) == entry_size(es[0]) + subdirs_size(es.drop_first()));
        assert(node_matches(ns[0], es[0]));
        assert(ns[0].size == entry_size(es[0]));
    } else {
        lemma_children_sizes_match(ns, es.drop_first());
        assert(subdirs_size(es) == subdirs_size(es.drop_first()));
    }
}

/// The subsequence of directory entries, in order, with files and other
/// entries left out.
pub open spec fn dir_entries(s: Seq<FsEntry>) -> Seq<FsEntry>
    decreases s,
{
    if s.len() == 0 {
        Seq::empty()
    } else if s[0] is Dir {
        seq![s[0]] + dir_entries(s.drop_first())
    } else {
        dir_entries(s.drop_first())
    }
}

/// Matched children stand for the directory entries one for one, in order.
proof fn lemma_nodes_match_each(ns: Seq<DirNode>, es: Seq<FsEntry>)
    requires
        nodes_match(ns, es),
    ensures
        ns.len() == dir_entries(es).len(),
        forall|i: int| 0 <= i < ns.len() ==> #[trigger] node_matches(ns[i], dir_entries(es)[i]),
    decreases es.len(),
{
    if es.len() == 0 {
        assert(ns.len() == 0);
        assert(dir_entries(es) =~= Seq::<FsEntry>::empty());
    } else if es[0] is Dir {
        lemma_nodes_match_each(ns.drop_first(), es.drop_first());
        assert(dir_entries(es) == seq![es[0]] + dir_entries(es.drop_first()));
        assert forall|i: int| 0 <= i < ns.len() implies #[trigger] node_matches(
            ns[i],
            dir_entries(es)[i],
        ) by {
            if i == 0 {
                assert(dir_entries(es)[0] == es[0]);
                assert(node_matches(ns[0], es[0]));
            } else {
                assert(ns.drop_first()[i - 1] == ns[i]);
                assert(node_matches(ns.drop_first()[i - 1], dir_entries(es.drop_first())[i - 1]));
                assert(dir_entries(es)[i] == dir_entries(es.drop_first())[i - 1]);
            }
        }
    } else {
        lemma_nodes_match_each(ns, es.drop_first());
        assert(dir_entries(es) == dir_entries(es.drop_first()));
    }
}

/// Aggregate invariant.  A node the walk builds for a directory entry records
/// as its size exactly the bytes of the files directly inside the directory
/// plus the recorded sizes of its child nodes.  Each child in turn matches
/// one of the subdirectory entries, so the same equation holds at every node
/// of the tree.
pub proof fn lemma_aggregate_invariant(n: DirNode, e: FsEntry)
    requires
        node_matches(n, e),
    ensures
        e is Dir,
        n.size == direct_files_size(e->Dir_entries@) + children_sizes(n.children@),
        n.children@.len() == dir_entries(e->Dir_entries@).len(),
        forall|i: int|
            0 <= i < n.children@.len() ==> #[trigger] node_matches(
                n.children@[i],
                dir_entries(e->Dir_entries@)[i],
            ),
{
    lemma_entries_size_parts(e->Dir_entries@);
    lemma_children_sizes_match(n.children@, e->Dir_entries@);
    lemma_nodes_match_each(n.children@, e->Dir_entries@);
}

/// A quantity clamped to one past what a byte counter can hold, so that
/// "too large" is one distinguishable value.
pub open spec fn clamped(x: nat) -> nat {
    if x > u64::MAX {
        u64::MAX as nat + 1
    } else {
        x
    }
}

/// Measures an entry without building anything: its aggregate size and file
/// count, each clamped to one past the counter range.
fn measure_entry(e: &FsEntry) -> (r: (u128, u128))
    ensures
        r.0 == clamped(entry_size(*e)),
        r.1 == clamped(entry_files(*e)),
    decreases *e,
{
    match e {
        FsEntry::File { name: _, size } => (*size as u128, 1),
        FsEntry::Other { name: _ } => (0, 0),
        FsEntry::Dir { name: _, entries } => {
            let limit: u128 = u64::MAX as u128 + 1;
            let mut size_acc: u128 = 0;
            let mut files_acc: u128 = 0;
            let mut i: usize = 0;
            while i < entries.len()
                invariant
                    *e is Dir,
                    *entries == (*e)->Dir_entries,
                    limit == u64::MAX as u128 + 1,
                    i <= entries@.len(),
                    size_acc == clamped(entries_size(entries@.take(i as int))),
                    files_acc == clamped(entries_files(entries@.take(i as int))),
                decreases entries@.len() - i,
            {
                proof {
                    assert(decreases_to!(*e => (*e)->Dir_entries));
                    assert(decreases_to!(*entries => entries[i as int]));
                }
                let ghost prev_take = entries@.take(i as int);
                let (child_size, child_files) = measure_entry(&entries[i]);
                size_acc = if size_acc + child_size > limit {
                    limit
                } else {
                    size_acc + child_size
                };
                files_acc = if files_acc + child_files > limit {
                    limit
                } else {
                    files_acc + child_files
                };
                i = i + 1;
                proof {
                    assert(entries@.take(i as int) =~= prev_take + seq![entries@[i - 1]]);
                    lemma_entries_size_split(entries@.take(i as int), i - 1);
                    lemma_entries_files_split(entries@.take(i as int), i - 1);
                    assert(entries@.take(i as int).take(i - 1) =~= prev_take);
                    assert(entries@.take(i as int).skip(i - 1) =~= seq![entries@[i - 1]]);
                    assert(seq![entries@[i - 1]].drop_first() =~= Seq::<FsEntry>::empty());
                    assert(seq![entries@[i - 1]][0] == entries@[i - 1]);
                    assert(entries_size(Seq::<FsEntry>::empty()) == 0);
                    assert(entries_files(Seq::<FsEntry>::empty()) == 0);
                    assert(entries_size(seq![entries@[i - 1]]) == entry_size(entries@[i - 1]));
                    assert(entries_files(seq![entries@[i - 1]]) == entry_files(entries@[i - 1]));
                    assert(entries_size(entries@.take(i as int)) == entries_size(prev_take)
                        + entry_size(entries@[i - 1]));
                    assert(entries_files(entries@.take(i as int)) == entries_files(prev_take)
                        + entry_files(entries@[i - 1]));
                }
            }
            assert(entries@.take(entries@.len() as int) =~= entries@);
            (size_acc, files_acc)
        },
    }
}

/// Walks a whole tree after checking that its totals fit the counters:
/// `None` exactly when the aggregate size or the file count would overflow,
/// else the result of [`walk`].
pub fn try_walk(root: &FsEntry) -> (r: Option<(Option<DirNode>, RunTotals)>)
    ensures
        r is Some <==> (entry_size(*root) <= u64::MAX && entry_files(*root) <= u64::MAX),
        r is Some ==> ({
            let (node, totals) = r->0;
            &&& totals.total_size == entry_size(*root)
            &&& totals.file_count == entry_files(*root)
            &&& (node is Some <==> *root is Dir)
            &&& (*root is Dir ==> node_matches(node->0, *root))
        }),
{
    let (size, files) = measure_entry(root);
    if size <= u64::MAX as u128 && files <= u64::MAX as u128 {
        Some(walk(root))
    } else {
        None
    }
}

/// Walks a whole tree: returns the aggregate node of the root directory —
/// a file or other root contributes totals only, no node — together with the
/// totals over everything beneath the root.
pub fn walk(root: &FsEntry) -> (r: (Option<DirNode>, RunTotals))
    requires
        entry_size(*root) <= u64::MAX,
        entry_files(*root) <= u64::MAX,
    ensures
        r.1.total_size == entry_size(*root),
        r.1.file_count == entry_files(*root),
        r.0 is Some <==> *root is Dir,
        *root is Dir ==> node_matches(r.0->0, *root),
{
    let mut totals = RunTotals { file_count: 0, total_size: 0 };
    let (_, node) = walk_entry(root, &mut totals);
    (node, totals)
}

} // verus!
