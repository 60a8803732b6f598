//! The digest: a header, the directory tree, and the contents of each file.

use vstd::prelude::*;

use crate::path::{components_of, path_components, strings_view};
use crate::repo::{repo_name, Repo};
use crate::text::{decimal, ends_with_newline, push_char, push_decimal};
use crate::tree::{expected_flag, build_tree, describes, law_tree_drawing_order_independent, law_tree_order_independent, lemma_same_nodes_same_drawing, prefix_free, render_tree_node, rendered_children, TreeNode};
use crate::walk::{file_paths, CandidateFile};

verus! {

/// The line that frames each file's header in the files section.
pub const FILE_SEPARATOR: &'static str = "============================================================";

/// The sum of the files' sizes.
pub open spec fn total_size(files: Seq<CandidateFile>) -> nat
    decreases files.len(),
{
    if files.len() == 0 {
        0
    } else {
        total_size(files.drop_last()) + files.last().size_bytes as nat
    }
}

/// The header: repository name, root, number of files and their total size.
pub open spec fn header_text(name: Seq<char>, root: Seq<char>, file_count: nat, total_bytes: nat) -> Seq<char> {
    "# Repository Context\n\n"@
        + "Repository: "@ + name + "\n"@
        + "Root: "@ + root + "\n"@
        + "Files: "@ + decimal(file_count) + "\n"@
        + "Bytes: "@ + decimal(total_bytes) + "\n"@
        + seq!['\n']
}

/// The drawing of the tree of `paths` below its root.
pub open spec fn tree_listing(paths: Seq<Seq<Seq<char>>>) -> Seq<char> {
    let t = choose|t: TreeNode| describes(t, paths);
    rendered_children(t, Seq::empty(), t.children@.len() as int)
}

/// The directory structure section.
pub open spec fn tree_section_text(name: Seq<char>, paths: Seq<Seq<Seq<char>>>) -> Seq<char> {
    "## Directory structure\n\n"@ + "```text\n"@ + name + "/\n"@ + tree_listing(paths) + "```\n\n"@
}

/// No earlier path equals the one at `i` (paths compare by components,
/// as `PathBuf` does).
pub open spec fn first_occurrence(paths: Seq<Seq<Seq<char>>>, i: int) -> bool {
    forall|j: int| 0 <= j < i ==> #[trigger] paths[j] != paths[i]
}

/// The block of one file: a framed `FILE:` header, the contents, a line
/// break where the contents do not end with one, and an empty line.
pub open spec fn file_block(path: Seq<char>, contents: Seq<char>) -> Seq<char> {
    FILE_SEPARATOR@ + seq!['\n'] + "FILE: "@ + path + seq!['\n'] + FILE_SEPARATOR@ + seq!['\n']
        + contents
        + (if contents.len() > 0 && contents.last() == '\n' { Seq::<char>::empty() } else { seq!['\n'] })
        + seq!['\n']
}

/// The blocks of the first `k` files, skipping each file whose path already
/// occurred; `contents[i]` is the contents of `files[i]`.
pub open spec fn file_blocks(files: Seq<CandidateFile>, contents: Seq<Seq<char>>, k: int) -> Seq<char>
    decreases k,
{
    if k <= 0 {
        Seq::empty()
    } else {
        file_blocks(files, contents, k - 1) + if first_occurrence(file_paths(files), k - 1) {
            file_block(files[k - 1].relative_path@, contents[k - 1])
        } else {
            Seq::empty()
        }
    }
}

/// The files section.
pub open spec fn files_section_text(files: Seq<CandidateFile>, contents: Seq<Seq<char>>) -> Seq<char> {
    "## Files\n\n"@ + file_blocks(files, contents, files.len() as int)
}

/// The whole digest of the repository rooted at `root`.
pub open spec fn digest_text(root: Seq<char>, files: Seq<CandidateFile>, contents: Seq<Seq<char>>) -> Seq<char> {
    header_text(repo_name(root), root, files.len(), total_size(files))
        + tree_section_text(repo_name(root), file_paths(files))
        + files_section_text(files, contents)
}

/// The header of a file's block: the framed `FILE:` line.
pub open spec fn block_header(path: Seq<char>) -> Seq<char> {
    FILE_SEPARATOR@ + seq!['\n'] + "FILE: "@ + path + seq!['\n'] + FILE_SEPARATOR@ + seq!['\n']
}

/// A file's block is its framed header followed by the file's own
/// contents, then one or two line breaks.
pub proof fn law_file_block_holds_contents(path: Seq<char>, contents: Seq<char>)
    ensures
        file_block(path, contents).take(block_header(path).len() as int) == block_header(path),
        file_block(path, contents).subrange(
            block_header(path).len() as int,
            (block_header(path).len() + contents.len()) as int,
        ) == contents,
{
    let h = block_header(path);
    let tail = (if contents.len() > 0 && contents.last() == '\n' { Seq::<char>::empty() } else { seq!['\n'] }) + seq!['\n'];
    assert(file_block(path, contents) =~= h + contents + tail);
    assert((h + contents + tail).take(h.len() as int) =~= h);
    assert((h + contents + tail).subrange(h.len() as int, (h.len() + contents.len()) as int) =~= contents);
}

proof fn lemma_file_blocks_prefix(files: Seq<CandidateFile>, contents: Seq<Seq<char>>, f: CandidateFile, c: Seq<char>, k: int)
    requires
        0 <= k <= files.len(),
        contents.len() == files.len(),
    ensures
        file_blocks(files.push(f), contents.push(c), k) == file_blocks(files, contents, k),
    decreases k,
{
    if k > 0 {
        lemma_file_blocks_prefix(files, contents, f, c, k - 1);
        let p1 = file_paths(files.push(f));
        let p0 = file_paths(files);
        assert forall|j: int| 0 <= j < k implies #[trigger] p1[j] == p0[j] by {
            assert(files.push(f)[j] == files[j]);
        }
        assert(first_occurrence(p1, k - 1) == first_occurrence(p0, k - 1)) by {
            assert(p1[k - 1] == p0[k - 1]);
            if first_occurrence(p0, k - 1) {
                assert forall|j: int| 0 <= j < k - 1 implies #[trigger] p1[j] != p1[k - 1] by {
                    assert(p0[j] != p0[k - 1]);
                }
            }
            if first_occurrence(p1, k - 1) {
                assert forall|j: int| 0 <= j < k - 1 implies #[trigger] p0[j] != p0[k - 1] by {
                    assert(p1[j] != p1[k - 1]);
                }
            }
        }
        assert(files.push(f)[k - 1] == files[k - 1]);
        assert(contents.push(c)[k - 1] == contents[k - 1]);
    }
}

/// Adding a file whose path is new adds its block, with its own contents,
/// at the end of the files section.
pub proof fn law_files_section_new_path(files: Seq<CandidateFile>, contents: Seq<Seq<char>>, f: CandidateFile, c: Seq<char>)
    requires
        contents.len() == files.len(),
        forall|i: int| 0 <= i < files.len() ==> #[trigger] file_paths(files)[i] != path_components(f.relative_path@),
    ensures
        files_section_text(files.push(f), contents.push(c))
            == files_section_text(files, contents) + file_block(f.relative_path@, c),
{
    let n = files.len() as int;
    lemma_file_blocks_prefix(files, contents, f, c, n);
    let p1 = file_paths(files.push(f));
    assert forall|j: int| 0 <= j < n implies #[trigger] p1[j] != p1[n] by {
        assert(files.push(f)[j] == files[j]);
        assert(file_paths(files)[j] != path_components(f.relative_path@));
    }
    assert(first_occurrence(p1, n));
    assert(files.push(f)[n] == f);
    assert(contents.push(c)[n] == c);
}

/// Adding a file whose path already occurred leaves the files section as
/// it was: each path is rendered once, with the contents of its first file.
pub proof fn law_files_section_repeated_path(files: Seq<CandidateFile>, contents: Seq<Seq<char>>, f: CandidateFile, c: Seq<char>, i: int)
    requires
        contents.len() == files.len(),
        0 <= i < files.len(),
        file_paths(files)[i] == path_components(f.relative_path@),
    ensures
        files_section_text(files.push(f), contents.push(c)) == files_section_text(files, contents),
{
    let n = files.len() as int;
    lemma_file_blocks_prefix(files, contents, f, c, n);
    let p1 = file_paths(files.push(f));
    assert(files.push(f)[i] == files[i]);
    assert(p1[i] == p1[n]);
    assert(!first_occurrence(p1, n));
}

/// The digest is the header, then the tree section, then the files section.
pub proof fn law_digest_sections(root: Seq<char>, files: Seq<CandidateFile>, contents: Seq<Seq<char>>)
    ensures
        digest_text(root, files, contents) == header_text(repo_name(root), root, files.len(), total_size(files))
            + tree_section_text(repo_name(root), file_paths(files))
            + files_section_text(files, contents),
{
}

/// Two lists of files with the same paths, none a proper prefix of
/// another, have the same tree section, whatever their order and
/// repetitions. `t1` is the tree of the first list, as `build_tree` gives it.
pub proof fn law_tree_section_order_independent(
    t1: TreeNode,
    files1: Seq<CandidateFile>,
    files2: Seq<CandidateFile>,
    name: Seq<char>,
)
    requires
        describes(t1, file_paths(files1)),
        prefix_free(file_paths(files1)),
        forall|q: Seq<Seq<char>>| file_paths(files1).contains(q) == file_paths(files2).contains(q),
    ensures
        tree_section_text(name, file_paths(files1)) == tree_section_text(name, file_paths(files2)),
{
    let paths1 = file_paths(files1);
    let paths2 = file_paths(files2);
    assert forall|p: Seq<Seq<char>>| #[trigger] t1.flag_at(p) == expected_flag(paths2, p) by {
        law_tree_order_independent(paths1, paths2, p);
    }
    assert(describes(t1, paths2));
    let c1 = choose|t: TreeNode| describes(t, paths1);
    let c2 = choose|t: TreeNode| describes(t, paths2);
    law_tree_drawing_order_independent(c1, c2, paths1, paths2);
    assert(tree_listing(paths1) == tree_listing(paths2));
}

/// Renders the digest of `repo`: header, directory tree, file contents.
/// `contents[i]` is the text of `files[i]`; it is read only for the first
/// file with a given path (see `first_occurrence_flags`).
pub fn render_digest(repo: &Repo, files: &[CandidateFile], contents: &[String]) -> (digest: String)
    requires
        contents@.len() == files@.len(),
        total_size(files@) <= u64::MAX,
    ensures
        digest@ == digest_text(repo@, files@, strings_view(contents@)),
{
    let mut output = String::new();
    render_header(&mut output, repo, files);
    render_tree_section(&mut output, repo, files);
    render_files_section(&mut output, files, contents);
    assert(output@ =~= digest_text(repo@, files@, strings_view(contents@)));
    output
}

/// Appends the header.
pub fn render_header(output: &mut String, repo: &Repo, files: &[CandidateFile])
    requires
        total_size(files@) <= u64::MAX,
    ensures
        final(output)@ == old(output)@ + header_text(repo_name(repo@), repo@, files@.len(), total_size(files@)),
{
    let mut total_bytes: u64 = 0;
    for i in 0..files.len()
        invariant
            total_size(files@) <= u64::MAX,
            total_bytes == total_size(files@.take(i as int)),
    {
        proof {
            assert(files@.take(i + 1).drop_last() =~= files@.take(i as int));
            lemma_total_size_prefix(files@, i + 1);
        }
        total_bytes = total_bytes + files[i].size_bytes;
    }
    assert(files@.take(files@.len() as int) =~= files@);
    output.append("# Repository Context\n\n");
    output.append("Repository: ");
    output.append(repo.name());
    output.append("\n");
    output.append("Root: ");
    output.append(repo.root());
    output.append("\n");
    output.append("Files: ");
    push_decimal(output, files.len() as u64);
    output.append("\n");
    output.append("Bytes: ");
    push_decimal(output, total_bytes);
    output.append("\n");
    push_char(output, '\n');
    assert(final(output)@ =~= old(output)@ + header_text(repo_name(repo@), repo@, files@.len(), total_size(files@)));
}

/// The total size of a prefix is at most the total size.
proof fn lemma_total_size_prefix(files: Seq<CandidateFile>, k: int)
    requires
        0 <= k <= files.len(),
    ensures
        total_size(files.take(k)) <= total_size(files),
    decreases files.len(),
{
    if k < files.len() {
        assert(files.drop_last().take(k) =~= files.take(k));
        lemma_total_size_prefix(files.drop_last(), k);
    } else {
        assert(files.take(k) =~= files);
    }
}

/// Appends the directory structure section.
pub fn render_tree_section(output: &mut String, repo: &Repo, files: &[CandidateFile])
    ensures
        final(output)@ == old(output)@ + tree_section_text(repo_name(repo@), file_paths(files@)),
{
    output.append("## Directory structure\n\n");
    output.append("```text\n");
    output.append(repo.name());
    output.append("/\n");
    let tree = build_tree(files);
    let ghost start = output@;
    let no_prefix = String::new();
    let count = tree.children.len();
    for index in 0..count
        invariant
            count == tree.children@.len(),
            tree.well_formed(),
            no_prefix@ == Seq::<char>::empty(),
            output@ == start + rendered_children(tree, Seq::empty(), index as int),
    {
        let is_last = index + 1 == count;
        let entry = &tree.children[index];
        assert(tree.children@[index as int].1.well_formed());
        render_tree_node(output, entry.0.as_str(), &entry.1, no_prefix.as_str(), is_last);
        assert(output@ =~= start + rendered_children(tree, Seq::empty(), index + 1));
    }
    output.append("```\n\n");
    proof {
        let paths = file_paths(files@);
        assert(describes(tree, paths));
        let t = choose|t: TreeNode| describes(t, paths);
        lemma_same_nodes_same_drawing(tree, t);
        assert(rendered_children(tree, Seq::empty(), count as int) == tree_listing(paths));
    }
    assert(final(output)@ =~= old(output)@ + tree_section_text(repo_name(repo@), file_paths(files@)));
}


/// The component paths of a sequence of component vectors.
pub open spec fn paths_view(paths: Seq<Vec<String>>) -> Seq<Seq<Seq<char>>> {
    paths.map_values(|p: Vec<String>| strings_view(p@))
}

/// Decides whether two component vectors are equal.
fn same_components(a: &Vec<String>, b: &Vec<String>) -> (r: bool)
    ensures
        r == (strings_view(a@) == strings_view(b@)),
{
    if a.len() != b.len() {
        assert(strings_view(a@).len() != strings_view(b@).len());
        return false;
    }
    for i in 0..a.len()
        invariant
            a.len() == b.len(),
            forall|j: int| 0 <= j < i ==> #[trigger] a@[j]@ == b@[j]@,
    {
        if a[i] != b[i] {
            assert(strings_view(a@)[i as int] != strings_view(b@)[i as int]);
            return false;
        }
    }
    assert(strings_view(a@) =~= strings_view(b@));
    true
}

/// For each file, whether no earlier file has the same path (compared by
/// components); only those files are rendered and read.
pub fn first_occurrence_flags(files: &[CandidateFile]) -> (flags: Vec<bool>)
    ensures
        flags@.len() == files@.len(),
        forall|i: int| 0 <= i < files@.len() ==> #[trigger] flags@[i] == first_occurrence(file_paths(files@), i),
{
    let ghost paths = file_paths(files@);
    let mut seen: Vec<Vec<String>> = Vec::new();
    let mut flags: Vec<bool> = Vec::new();
    for i in 0..files.len()
        invariant
            paths == file_paths(files@),
            flags@.len() == i,
            forall|j: int| 0 <= j < i ==> #[trigger] flags@[j] == first_occurrence(paths, j),
            forall|x: Seq<Seq<char>>| paths_view(seen@).contains(x) == paths.take(i as int).contains(x),
    {
        let components = components_of(files[i].relative_path.as_str());
        assert(strings_view(components@) == paths[i as int]);
        let mut fresh = true;
        let mut k: usize = 0;
        while k < seen.len()
            invariant
                0 <= k <= seen.len(),
                fresh == forall|m: int| 0 <= m < k ==> #[trigger] paths_view(seen@)[m] != strings_view(components@),
            decreases seen.len() - k,
        {
            assert(paths_view(seen@)[k as int] == strings_view(seen@[k as int]@));
            if same_components(&seen[k], &components) {
                fresh = false;
            }
            k = k + 1;
        }
        proof {
            assert(fresh == !paths_view(seen@).contains(paths[i as int]));
            assert(first_occurrence(paths, i as int) == !paths.take(i as int).contains(paths[i as int])) by {
                if !first_occurrence(paths, i as int) {
                    let j = choose|j: int| 0 <= j < i && #[trigger] paths[j] == paths[i as int];
                    assert(paths.take(i as int)[j] == paths[j]);
                }
            }
        }
        let ghost old_seen = seen@;
        if fresh {
            seen.push(components);
        }
        flags.push(fresh);
        proof {
            assert(paths.take(i + 1) =~= paths.take(i as int).push(paths[i as int]));
            if fresh {
                assert(paths_view(seen@) =~= paths_view(old_seen).push(strings_view(components@)));
            } else {
                assert(paths_view(seen@) =~= paths_view(old_seen));
            }
            assert forall|x: Seq<Seq<char>>| paths_view(seen@).contains(x) == paths.take(i + 1).contains(x) by {
                let old_view = paths_view(old_seen);
                let new_view = paths_view(seen@);
                assert forall|m: int| 0 <= m < old_view.len() implies #[trigger] new_view[m] == old_view[m] by {}
                if paths.take(i + 1).contains(x) {
                    let j = choose|j: int| 0 <= j < i + 1 && #[trigger] paths.take(i + 1)[j] == x;
                    if j < i {
                        assert(paths.take(i as int)[j] == x);
                        assert(old_view.contains(x));
                        let m = choose|m: int| 0 <= m < old_view.len() && #[trigger] old_view[m] == x;
                        assert(new_view[m] == x);
                    } else if fresh {
                        assert(new_view[old_view.len() as int] == x);
                    } else {
                        assert(old_view.contains(x));
                        let m = choose|m: int| 0 <= m < old_view.len() && #[trigger] old_view[m] == x;
                        assert(new_view[m] == x);
                    }
                }
                if new_view.contains(x) {
                    let m = choose|m: int| 0 <= m < new_view.len() && #[trigger] new_view[m] == x;
                    if m < old_view.len() {
                        assert(old_view[m] == x);
                        assert(old_view.contains(x));
                        assert(paths.take(i as int).contains(x));
                        let j = choose|j: int| 0 <= j < i && #[trigger] paths.take(i as int)[j] == x;
                        assert(paths.take(i + 1)[j] == x);
                    } else {
                        assert(x == paths[i as int]);
                        assert(paths.take(i + 1)[i as int] == x);
                    }
                }
            }
        }
    }
    flags
}

/// Appends the block of one file.
pub fn render_file_block(output: &mut String, path: &str, contents: &str)
    ensures
        final(output)@ == old(output)@ + file_block(path@, contents@),
{
    output.append(FILE_SEPARATOR);
    push_char(output, '\n');
    output.append("FILE: ");
    output.append(path);
    push_char(output, '\n');
    output.append(FILE_SEPARATOR);
    push_char(output, '\n');
    output.append(contents);
    if !ends_with_newline(contents) {
        push_char(output, '\n');
    }
    push_char(output, '\n');
    assert(final(output)@ =~= old(output)@ + file_block(path@, contents@));
}

/// Appends the files section: a block for each file, in order, skipping a
/// file whose path occurred before.
pub fn render_files_section(output: &mut String, files: &[CandidateFile], contents: &[String])
    requires
        contents@.len() == files@.len(),
    ensures
        final(output)@ == old(output)@ + files_section_text(files@, strings_view(contents@)),
{
    output.append("## Files\n\n");
    let ghost start = output@;
    let ghost texts = strings_view(contents@);
    let flags = first_occurrence_flags(files);
    for i in 0..files.len()
        invariant
            contents@.len() == files@.len(),
            texts == strings_view(contents@),
            flags@.len() == files@.len(),
            forall|j: int| 0 <= j < files@.len() ==> #[trigger] flags@[j] == first_occurrence(file_paths(files@), j),
            output@ == start + file_blocks(files@, texts, i as int),
    {
        if flags[i] {
            render_file_block(output, files[i].relative_path.as_str(), contents[i].as_str());
        }
        assert(flags@[i as int] == first_occurrence(file_paths(files@), i as int));
        assert(output@ =~= start + file_blocks(files@, texts, i + 1));
    }
}

} // verus!
