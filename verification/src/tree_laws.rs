//! What holds of the tree of the files of a project, whatever stands in its directories.

use crate::files;
use crate::files::Entry;
use crate::files::EntryKind;
use crate::files::TreeNode;
use crate::order;
use crate::order::Ranked;
use crate::outside;
use crate::paths;
use crate::text;
use vstd::prelude::*;

verus! {

/// An entry is shown unless its name starts with a dot, and all are where hidden ones are asked for.
pub proof fn lemma_visible(name: Seq<char>)
    ensures
        files::is_visible(name, true),
        !files::is_visible(seq!['.'] + name, false),
        name.len() == 0 || name[0] != '.' ==> files::is_visible(name, false),
{
    assert((seq!['.'] + name)[0] == '.');
}

/// Whether an entry has a node in a tree: it is visible and no symlink.
pub open spec fn is_shown(e: Entry, include_hidden: bool) -> bool {
    files::is_visible(e.name, include_hidden) && e.metadata.kind != EntryKind::Symlink
}

/// Whether a node says what is to be said of an entry in the directory with the path `prefix`.
pub open spec fn shows(node: TreeNode, e: Entry, prefix: Seq<Seq<char>>) -> bool {
    &&& node.name == e.name
    &&& node.path == paths::shown_path(prefix.push(e.name))
    &&& node.is_dir <==> e.metadata.kind == EntryKind::Directory
    &&& node.size == if node.is_dir {
        None
    } else {
        Some(e.metadata.size)
    }
    &&& node.modified_at_ms == e.metadata.modified_at_ms
    &&& node.version == files::version(e.metadata)
}

/// The node of an entry says what is to be said of it. A directory has the nodes of its own entries
/// as children where the tree reaches one level further and there are any, and nothing else has
/// children.
pub proof fn lemma_node(
    e: Entry,
    prefix: Seq<Seq<char>>,
    depth: nat,
    max_depth: nat,
    include_hidden: bool,
)
    ensures
        ({
            let node = files::tree_node(e, prefix, depth, max_depth, include_hidden);
            let inner = files::tree(
                e.entries,
                prefix.push(e.name),
                depth + 1,
                max_depth,
                include_hidden,
            );
            &&& shows(node, e, prefix)
            &&& node.is_dir && depth + 1 < max_depth && inner.len() > 0 ==> node.children == Some(
                inner,
            )
            &&& !node.is_dir || depth + 1 >= max_depth || inner.len() == 0 ==> node.children is None
        }),
{
}

/// Every entry that is visible and no symlink has its node in the tree.
pub proof fn lemma_every_entry_is_shown(
    entries: Seq<Entry>,
    i: int,
    prefix: Seq<Seq<char>>,
    depth: nat,
    max_depth: nat,
    include_hidden: bool,
)
    requires
        0 <= i < entries.len(),
        is_shown(entries[i], include_hidden),
    ensures
        exists|k: int|
            0 <= k < files::tree(entries, prefix, depth, max_depth, include_hidden).len() && shows(
                #[trigger] files::tree(entries, prefix, depth, max_depth, include_hidden)[k],
                entries[i],
                prefix,
            ),
{
    let nodes = files::tree_nodes(entries, prefix, depth, max_depth, include_hidden);
    let all = files::tree(entries, prefix, depth, max_depth, include_hidden);
    let node = files::tree_node(entries[i], prefix, depth, max_depth, include_hidden);
    lemma_nodes_contain(entries, i, prefix, depth, max_depth, include_hidden);
    order::lemma_sorted_list_contains(nodes);
    assert(all.contains(node));
    let k = choose|k: int| 0 <= k < all.len() && all[k] == node;
    lemma_node(entries[i], prefix, depth, max_depth, include_hidden);
    assert(shows(all[k], entries[i], prefix));
}

proof fn lemma_nodes_contain(
    entries: Seq<Entry>,
    i: int,
    prefix: Seq<Seq<char>>,
    depth: nat,
    max_depth: nat,
    include_hidden: bool,
)
    requires
        0 <= i < entries.len(),
        is_shown(entries[i], include_hidden),
    ensures
        files::tree_nodes(entries, prefix, depth, max_depth, include_hidden).contains(
            files::tree_node(entries[i], prefix, depth, max_depth, include_hidden),
        ),
    decreases entries.len(),
{
    let nodes = files::tree_nodes(entries, prefix, depth, max_depth, include_hidden);
    let node = files::tree_node(entries[i], prefix, depth, max_depth, include_hidden);
    if i == entries.len() - 1 {
        assert(nodes.last() == node);
    } else {
        let before = files::tree_nodes(
            entries.drop_last(),
            prefix,
            depth,
            max_depth,
            include_hidden,
        );
        assert(entries.drop_last()[i] == entries[i]);
        lemma_nodes_contain(entries.drop_last(), i, prefix, depth, max_depth, include_hidden);
        let k = choose|k: int| 0 <= k < before.len() && before[k] == node;
        assert(nodes[k] == node);
    }
}

/// A tree has as many nodes as its directory has entries that are visible and no symlinks.
pub proof fn lemma_tree_len(
    entries: Seq<Entry>,
    prefix: Seq<Seq<char>>,
    depth: nat,
    max_depth: nat,
    include_hidden: bool,
)
    ensures
        files::tree(entries, prefix, depth, max_depth, include_hidden).len() == entries.filter(
            |e: Entry| is_shown(e, include_hidden),
        ).len(),
{
    order::lemma_sorted_list(
        files::tree_nodes(entries, prefix, depth, max_depth, include_hidden),
    );
    lemma_nodes_len(entries, prefix, depth, max_depth, include_hidden);
}

proof fn lemma_nodes_len(
    entries: Seq<Entry>,
    prefix: Seq<Seq<char>>,
    depth: nat,
    max_depth: nat,
    include_hidden: bool,
)
    ensures
        files::tree_nodes(entries, prefix, depth, max_depth, include_hidden).len()
            == entries.filter(|e: Entry| is_shown(e, include_hidden)).len(),
    decreases entries.len(),
{
    reveal(Seq::filter);
    if entries.len() > 0 {
        lemma_nodes_len(entries.drop_last(), prefix, depth, max_depth, include_hidden);
    }
}

/// In a tree directories come first. Among directories, and among files, the names in lower case
/// are in dictionary order, and names that are one in lower case are in dictionary order themselves.
pub proof fn lemma_tree_order(
    entries: Seq<Entry>,
    j: int,
    k: int,
    prefix: Seq<Seq<char>>,
    depth: nat,
    max_depth: nat,
    include_hidden: bool,
)
    requires
        0 <= j < k < files::tree(entries, prefix, depth, max_depth, include_hidden).len(),
    ensures
        ({
            let a = files::tree(entries, prefix, depth, max_depth, include_hidden)[j];
            let b = files::tree(entries, prefix, depth, max_depth, include_hidden)[k];
            &&& b.is_dir ==> a.is_dir
            &&& a.is_dir == b.is_dir ==> text::text_le(
                outside::lowercase(a.name),
                outside::lowercase(b.name),
            )
            &&& a.is_dir == b.is_dir && outside::lowercase(a.name) == outside::lowercase(b.name)
                ==> text::text_le(a.name, b.name)
        }),
{
    let nodes = files::tree_nodes(entries, prefix, depth, max_depth, include_hidden);
    let all = order::sorted_list(nodes);
    order::lemma_sorted_list(nodes);
    assert(all[j].le(all[k]));
    text::lemma_text_reflexive(outside::lowercase(all[j].name));
}

/// The symlinks that a tree leaves out of some entries and of others are those that it leaves out of
/// all of them.
pub proof fn lemma_left_out_concat(
    a: Seq<Entry>,
    b: Seq<Entry>,
    prefix: Seq<Seq<char>>,
    depth: nat,
    max_depth: nat,
    include_hidden: bool,
)
    ensures
        files::left_out(a + b, prefix, depth, max_depth, include_hidden) == files::left_out(
            a,
            prefix,
            depth,
            max_depth,
            include_hidden,
        ) + files::left_out(b, prefix, depth, max_depth, include_hidden),
    decreases b.len(),
{
    if b.len() == 0 {
        assert(a + b =~= a);
        assert(files::left_out(a, prefix, depth, max_depth, include_hidden)
            + files::left_out(b, prefix, depth, max_depth, include_hidden) =~= files::left_out(
            a,
            prefix,
            depth,
            max_depth,
            include_hidden,
        ));
    } else {
        assert((a + b).drop_last() =~= a + b.drop_last());
        lemma_left_out_concat(a, b.drop_last(), prefix, depth, max_depth, include_hidden);
        assert(files::left_out(a + b, prefix, depth, max_depth, include_hidden)
            =~= files::left_out(a, prefix, depth, max_depth, include_hidden) + files::left_out(
            b,
            prefix,
            depth,
            max_depth,
            include_hidden,
        ));
    }
}

/// A symlink that is visible is named as left out, and so are those that the tree leaves out of a
/// directory that it goes into. Nothing is named for any other entry.
pub proof fn lemma_left_out(
    e: Entry,
    prefix: Seq<Seq<char>>,
    depth: nat,
    max_depth: nat,
    include_hidden: bool,
)
    ensures
        ({
            let named = files::left_out(seq![e], prefix, depth, max_depth, include_hidden);
            let path = prefix.push(e.name);
            let visible = files::is_visible(e.name, include_hidden);
            &&& visible && e.metadata.kind == EntryKind::Symlink ==> named == seq![
                paths::shown_path(path),
            ]
            &&& visible && e.metadata.kind == EntryKind::Directory && depth + 1 < max_depth
                ==> named == files::left_out(
                e.entries,
                path,
                depth + 1,
                max_depth,
                include_hidden,
            )
            &&& !visible || (e.metadata.kind != EntryKind::Symlink && (e.metadata.kind
                != EntryKind::Directory || depth + 1 >= max_depth)) ==> named.len() == 0
        }),
{
    let one = seq![e];
    assert(one.drop_last() =~= Seq::<Entry>::empty());
    assert(one.last() == e);
    let none = files::left_out(one.drop_last(), prefix, depth, max_depth, include_hidden);
    assert(none.len() == 0);
    let inner = files::left_out(
        e.entries,
        prefix.push(e.name),
        depth + 1,
        max_depth,
        include_hidden,
    );
    assert(none + inner =~= inner);
}

/// The symlinks below some entries and those below others are those below all of them, in that
/// order.
pub proof fn lemma_symlinks_concat(a: Seq<Entry>, b: Seq<Entry>, prefix: Seq<Seq<char>>)
    ensures
        files::symlinks(a + b, prefix) == files::symlinks(a, prefix) + files::symlinks(b, prefix),
    decreases b.len(),
{
    if b.len() == 0 {
        assert(a + b =~= a);
        assert(files::symlinks(a, prefix) + files::symlinks(b, prefix) =~= files::symlinks(
            a,
            prefix,
        ));
    } else {
        assert((a + b).drop_last() =~= a + b.drop_last());
        lemma_symlinks_concat(a, b.drop_last(), prefix);
        assert(files::symlinks(a + b, prefix) =~= files::symlinks(a, prefix) + files::symlinks(
            b,
            prefix,
        ));
    }
}

/// A symlink is found, and so are those in a directory. No other entry counts as one.
pub proof fn lemma_symlinks(e: Entry, prefix: Seq<Seq<char>>)
    ensures
        ({
            let found = files::symlinks(seq![e], prefix);
            let path = prefix.push(e.name);
            &&& e.metadata.kind == EntryKind::Symlink ==> found == seq![paths::shown_path(path)]
            &&& e.metadata.kind == EntryKind::Directory ==> found == files::symlinks(
                e.entries,
                path,
            )
            &&& e.metadata.kind != EntryKind::Symlink && e.metadata.kind != EntryKind::Directory
                ==> found.len() == 0
        }),
{
    let one = seq![e];
    assert(one.drop_last() =~= Seq::<Entry>::empty());
    assert(one.last() == e);
    let none = files::symlinks(one.drop_last(), prefix);
    assert(none.len() == 0);
    let inner = files::symlinks(e.entries, prefix.push(e.name));
    assert(none + inner =~= inner);
}

/// A tree reaches as deep as the request asks for, one level at least and thirty at most. Where the
/// request does not say, it reaches as deep as may be.
pub proof fn lemma_tree_depth(d: usize)
    ensures
        1 <= d <= 30 ==> files::depth_of(Some(d)) == d,
        d < 1 ==> files::depth_of(Some(d)) == 1,
        d > 30 ==> files::depth_of(Some(d)) == 30,
        files::depth_of(None) == 30,
{
}

} // verus!
