//! Turns a parsed bookmark tree into the numbers someone actually wants to
//! see: how big it is, how deep it goes, and where the cruft is.
use vstd::prelude::*;
use crate::model::{empty_folder, with_bookmark, with_folder, BookmarkModel, Folder, FolderModel};
use crate::text::{
    chars_eq, chars_of, copy_chars, lemma_lex_asymmetric, lemma_lex_irreflexive, lemma_lex_total,
    lemma_lex_transitive, law_prefix_sorts_first, lex_less, lex_lt, string_of,
};

verus! {

// ---------------------------------------------------------------------------
// What a tree holds
// ---------------------------------------------------------------------------

/// The number of folders in a tree, its root included.
pub open spec fn folder_count(f: FolderModel) -> nat
    decreases f,
{
    1 + folders_count(f.folders)
}

/// The number of folders in a sequence of trees.
pub open spec fn folders_count(fs: Seq<FolderModel>) -> nat
    decreases fs,
{
    if fs.len() == 0 {
        0
    } else {
        folders_count(fs.drop_last()) + folder_count(fs.last())
    }
}

/// The number of bookmarks anywhere in a tree.
pub open spec fn bookmark_count(f: FolderModel) -> nat
    decreases f,
{
    f.bookmarks.len() + bookmarks_count(f.folders)
}

/// The number of bookmarks anywhere in a sequence of trees.
pub open spec fn bookmarks_count(fs: Seq<FolderModel>) -> nat
    decreases fs,
{
    if fs.len() == 0 {
        0
    } else {
        bookmarks_count(fs.drop_last()) + bookmark_count(fs.last())
    }
}

/// The depth of a tree: 1 for a folder with no sub-folders.
pub open spec fn height(f: FolderModel) -> nat
    decreases f,
{
    1 + heights(f.folders)
}

/// The greatest depth among a sequence of trees, 0 for none.
pub open spec fn heights(fs: Seq<FolderModel>) -> nat
    decreases fs,
{
    if fs.len() == 0 {
        0
    } else {
        let a = heights(fs.drop_last());
        let b = height(fs.last());
        if a >= b {
            a
        } else {
            b
        }
    }
}

/// The URL of every bookmark in a tree: a folder's own bookmarks first,
/// then those of its sub-folders, in order.
pub open spec fn urls(f: FolderModel) -> Seq<Seq<char>>
    decreases f,
{
    f.bookmarks.map_values(|b: BookmarkModel| b.url) + urls_all(f.folders)
}

pub open spec fn urls_all(fs: Seq<FolderModel>) -> Seq<Seq<char>>
    decreases fs,
{
    if fs.len() == 0 {
        Seq::empty()
    } else {
        urls_all(fs.drop_last()) + urls(fs.last())
    }
}

/// Whether a folder holds nothing at all.
pub open spec fn is_empty_folder(f: FolderModel) -> bool {
    f.bookmarks.len() == 0 && f.folders.len() == 0
}

/// The path of a sub-folder: its parent's path, a slash, its title.
pub open spec fn child_path(path: Seq<char>, title: Seq<char>) -> Seq<char> {
    path + seq!['/'] + title
}

/// The paths of the empty folders of a tree whose root has path `path`,
/// in document order.
pub open spec fn empty_paths(f: FolderModel, path: Seq<char>) -> Seq<Seq<char>>
    decreases f,
{
    (if is_empty_folder(f) {
        seq![path]
    } else {
        Seq::empty()
    }) + empty_paths_all(f.folders, path)
}

pub open spec fn empty_paths_all(fs: Seq<FolderModel>, path: Seq<char>) -> Seq<Seq<char>>
    decreases fs,
{
    if fs.len() == 0 {
        Seq::empty()
    } else {
        empty_paths_all(fs.drop_last(), path) + empty_paths(
            fs.last(),
            child_path(path, fs.last().title),
        )
    }
}

/// How many times `u` occurs in `s`.
pub open spec fn count_of(s: Seq<Seq<char>>, u: Seq<char>) -> nat
    decreases s.len(),
{
    if s.len() == 0 {
        0
    } else {
        count_of(s.drop_last(), u) + if s.last() == u {
            1nat
        } else {
            0nat
        }
    }
}

/// `d` lists, in strictly increasing order, each URL that occurs more than
/// once in `all`, with the number of times it occurs.
pub open spec fn is_duplicate_list(d: Seq<(Seq<char>, nat)>, all: Seq<Seq<char>>) -> bool {
    &&& forall|a: int, b: int| 0 <= a < b < d.len() ==> lex_lt(#[trigger] d[a].0, #[trigger] d[b].0)
    &&& forall|a: int| 0 <= a < d.len() ==> #[trigger] d[a].1 == count_of(all, d[a].0) && d[a].1 > 1
    &&& forall|u: Seq<char>| #[trigger] count_of(all, u) > 1 ==> exists|a: int| 0 <= a < d.len() && #[trigger] d[a].0 == u
}

// ---------------------------------------------------------------------------
// Facts about trees
// ---------------------------------------------------------------------------

pub proof fn lemma_folders_count_prefix(fs: Seq<FolderModel>, k: int)
    requires
        0 <= k <= fs.len(),
    ensures
        folders_count(fs.take(k)) <= folders_count(fs),
        bookmarks_count(fs.take(k)) <= bookmarks_count(fs),
    decreases fs.len(),
{
    if k < fs.len() {
        assert(fs.drop_last().take(k) == fs.take(k));
        lemma_folders_count_prefix(fs.drop_last(), k);
    } else {
        assert(fs.take(k) == fs);
    }
}

/// The depth of a prefix of a sequence of trees is at most that of the whole.
pub proof fn lemma_heights_prefix(fs: Seq<FolderModel>, k: int)
    requires
        0 <= k <= fs.len(),
    ensures
        heights(fs.take(k)) <= heights(fs),
    decreases fs.len(),
{
    if k < fs.len() {
        assert(fs.drop_last().take(k) == fs.take(k));
        lemma_heights_prefix(fs.drop_last(), k);
    } else {
        assert(fs.take(k) == fs);
    }
}

pub proof fn lemma_height_le_count(f: FolderModel)
    ensures
        1 <= height(f) <= folder_count(f),
    decreases f,
{
    lemma_heights_le_count(f.folders);
}

pub proof fn lemma_heights_le_count(fs: Seq<FolderModel>)
    ensures
        heights(fs) <= folders_count(fs),
    decreases fs,
{
    if fs.len() > 0 {
        lemma_heights_le_count(fs.drop_last());
        lemma_height_le_count(fs.last());
    }
}

pub proof fn lemma_count_of_le(s: Seq<Seq<char>>, u: Seq<char>)
    ensures
        count_of(s, u) <= s.len(),
    decreases s.len(),
{
    if s.len() > 0 {
        lemma_count_of_le(s.drop_last(), u);
    }
}


// ---------------------------------------------------------------------------
// The walk
// ---------------------------------------------------------------------------

struct Accumulator {
    folder_count: usize,
    bookmark_count: usize,
    max_depth: usize,
    urls: Vec<Vec<char>>,
    empty_folders: Vec<String>,
}

pub open spec fn max_nat(a: nat, b: nat) -> nat {
    if a >= b {
        a
    } else {
        b
    }
}

fn append_chars(v: &mut Vec<char>, s: &[char])
    ensures
        final(v)@ == old(v)@ + s@,
{
    let mut i: usize = 0;
    while i < s.len()
        invariant
            i <= s.len(),
            v@ == old(v)@ + s@.take(i as int),
        decreases s.len() - i,
    {
        v.push(s[i]);
        assert(s@.take(i + 1) == s@.take(i as int).push(s@[i as int]));
        i = i + 1;
    }
    assert(s@.take(s.len() as int) == s@);
}

/// Visits a folder at the given depth, and everything under it, counting as
/// it goes.
fn walk(folder: &Folder, depth: usize, path: Vec<char>, acc: &mut Accumulator)
    requires
        1 <= depth,
        depth - 1 + height(folder@) <= usize::MAX,
        old(acc).folder_count + folder_count(folder@) <= usize::MAX,
        old(acc).bookmark_count + bookmark_count(folder@) <= usize::MAX,
    ensures
        final(acc).folder_count == old(acc).folder_count + folder_count(folder@),
        final(acc).bookmark_count == old(acc).bookmark_count + bookmark_count(folder@),
        final(acc).max_depth == max_nat(old(acc).max_depth as nat, (depth - 1 + height(folder@)) as nat),
        final(acc).urls@.map_values(|x: Vec<char>| x@) == old(acc).urls@.map_values(|x: Vec<char>| x@) + urls(folder@),
        final(acc).empty_folders.deep_view() == old(acc).empty_folders.deep_view() + empty_paths(
            folder@,
            path@,
        ),
    decreases folder,
{
    let ghost f = folder@;
    let ghost acc0 = *acc;
    proof {
        Folder::lemma_models_index(folder.folders@);
        lemma_folders_count_prefix(f.folders, 0);
    }
    acc.folder_count = acc.folder_count + 1;
    if depth > acc.max_depth {
        acc.max_depth = depth;
    }
    let ghost own_empty: Seq<Seq<char>> = if is_empty_folder(f) {
        seq![path@]
    } else {
        Seq::empty()
    };
    if folder.bookmarks.len() == 0 && folder.folders.len() == 0 {
        acc.empty_folders.push(string_of(path.as_slice()));
    }
    assert(acc.empty_folders.deep_view() =~= acc0.empty_folders.deep_view() + own_empty);
    let ghost own_urls = f.bookmarks.map_values(|b: BookmarkModel| b.url);
    let mut j: usize = 0;
    while j < folder.bookmarks.len()
        invariant
            f == folder@,
            j <= folder.bookmarks.len(),
            acc.folder_count == acc0.folder_count + 1,
            acc.bookmark_count == acc0.bookmark_count + j,
            acc0.bookmark_count + bookmark_count(f) <= usize::MAX,
            acc.urls@.map_values(|x: Vec<char>| x@) == acc0.urls@.map_values(|x: Vec<char>| x@) + own_urls.take(j as int),
            own_urls == f.bookmarks.map_values(|b: BookmarkModel| b.url),
            f.bookmarks.len() == folder.bookmarks.len(),
            acc.max_depth == max_nat(acc0.max_depth as nat, depth as nat),
            acc.empty_folders.deep_view() == acc0.empty_folders.deep_view() + own_empty,
        decreases folder.bookmarks.len() - j,
    {
        acc.bookmark_count = acc.bookmark_count + 1;
        let u = chars_of(folder.bookmarks[j].url.as_str());
        let ghost before = acc.urls@.map_values(|x: Vec<char>| x@);
        acc.urls.push(u);
        assert(acc.urls@.map_values(|x: Vec<char>| x@) =~= before.push(u@));
        assert(own_urls.take(j + 1) =~= own_urls.take(j as int).push(own_urls[j as int]));
        j = j + 1;
    }
    assert(own_urls.take(j as int) =~= own_urls);
    let mut i: usize = 0;
    while i < folder.folders.len()
        invariant
            f == folder@,
            i <= folder.folders.len(),
            f.folders.len() == folder.folders.len(),
            forall|k: int| 0 <= k < f.folders.len() ==> #[trigger] f.folders[k] == folder.folders@[k]@,
            1 <= depth,
            depth - 1 + height(f) <= usize::MAX,
            acc0.folder_count + folder_count(f) <= usize::MAX,
            acc0.bookmark_count + bookmark_count(f) <= usize::MAX,
            acc.folder_count == acc0.folder_count + 1 + folders_count(f.folders.take(i as int)),
            acc.bookmark_count == acc0.bookmark_count + f.bookmarks.len() + bookmarks_count(
                f.folders.take(i as int),
            ),
            acc.max_depth == max_nat(
                acc0.max_depth as nat,
                (depth + heights(f.folders.take(i as int))) as nat,
            ),
            acc.urls@.map_values(|x: Vec<char>| x@) == acc0.urls@.map_values(|x: Vec<char>| x@) + own_urls + urls_all(
                f.folders.take(i as int),
            ),
            acc.empty_folders.deep_view() == acc0.empty_folders.deep_view() + own_empty
                + empty_paths_all(f.folders.take(i as int), path@),
        decreases folder.folders.len() - i,
    {
        let child = &folder.folders[i];
        let ghost pre = f.folders.take(i as int);
        let ghost post = f.folders.take(i + 1);
        assert(post.drop_last() =~= pre);
        assert(post.last() == child@);
        proof {
            lemma_folders_count_prefix(f.folders, i + 1);
            lemma_heights_prefix(f.folders, i + 1);
            lemma_height_le_count(child@);
            assert(heights(post) >= height(child@));
        }
        let mut cpath = copy_chars(path.as_slice());
        cpath.push('/');
        let title = chars_of(child.title.as_str());
        append_chars(&mut cpath, title.as_slice());
        assert(cpath@ =~= child_path(path@, child@.title));
        walk(child, depth + 1, cpath, acc);
        i = i + 1;
    }
    assert(f.folders.take(i as int) =~= f.folders);
    assert(acc.urls@.map_values(|x: Vec<char>| x@) =~= acc0.urls@.map_values(|x: Vec<char>| x@) + urls(f));
    assert(acc.empty_folders.deep_view() =~= acc0.empty_folders.deep_view() + empty_paths(f, path@));
}


// ---------------------------------------------------------------------------
// Duplicates
// ---------------------------------------------------------------------------

proof fn lemma_count_of_push(s: Seq<Seq<char>>, x: Seq<char>, u: Seq<char>)
    ensures
        count_of(s.push(x), u) == count_of(s, u) + if x == u {
            1nat
        } else {
            0nat
        },
{
    assert(s.push(x).drop_last() =~= s);
}

/// The character sequences held by a vector of character vectors.
pub open spec fn seqs(v: Seq<Vec<char>>) -> Seq<Seq<char>> {
    v.map_values(|x: Vec<char>| x@)
}

/// A table of the distinct values in `seen`, in strictly increasing order,
/// each with the number of times it occurs there.
pub open spec fn is_count_table(keys: Seq<Seq<char>>, counts: Seq<usize>, seen: Seq<Seq<char>>) -> bool {
    &&& keys.len() == counts.len()
    &&& forall|a: int, b: int| 0 <= a < b < keys.len() ==> lex_lt(#[trigger] keys[a], #[trigger] keys[b])
    &&& forall|a: int| 0 <= a < keys.len() ==> #[trigger] counts[a] == count_of(seen, keys[a])
    &&& forall|a: int| 0 <= a < keys.len() ==> #[trigger] counts[a] >= 1
    &&& forall|u: Seq<char>| #[trigger] count_of(seen, u) > 0 ==> exists|a: int| 0 <= a < keys.len() && #[trigger] keys[a] == u
}

/// Counts one more occurrence of `x` in the table.
fn count_one(keys: &mut Vec<Vec<char>>, counts: &mut Vec<usize>, x: &[char], Ghost(seen): Ghost<Seq<Seq<char>>>)
    requires
        is_count_table(seqs(old(keys)@), old(counts)@, seen),
        seen.len() < usize::MAX,
    ensures
        is_count_table(seqs(final(keys)@), final(counts)@, seen.push(x@)),
{
    let ghost ks = seqs(keys@);
    proof {
        assert forall|u: Seq<char>| #[trigger] count_of(seen.push(x@), u) == count_of(seen, u) + if x@ == u { 1nat } else { 0nat } by {
            lemma_count_of_push(seen, x@, u);
        }
        lemma_count_of_le(seen, x@);
    }
    // the first key that does not sort before x
    let mut k: usize = 0;
    while k < keys.len() && lex_less(keys[k].as_slice(), x)
        invariant
            k <= keys.len(),
            ks == seqs(keys@),
            forall|a: int| 0 <= a < k ==> lex_lt(#[trigger] ks[a], x@),
        decreases keys.len() - k,
    {
        k = k + 1;
    }
    if k < keys.len() && chars_eq(keys[k].as_slice(), x) {
        let c = counts[k] + 1;
        counts.set(k, c);
        proof {
            assert forall|a: int| 0 <= a < ks.len() && a != k implies ks[a] != x@ by {
                lemma_lex_irreflexive(x@);
                if a > k {
                    lemma_lex_asymmetric(ks[k as int], ks[a]);
                }
            }
        }
    } else {
        proof {
            if k < ks.len() {
                lemma_lex_total(ks[k as int], x@);
                assert forall|b: int| k <= b < ks.len() implies lex_lt(x@, #[trigger] ks[b]) by {
                    if b > k {
                        lemma_lex_transitive(x@, ks[k as int], ks[b]);
                    }
                }
            }
            assert forall|a: int| 0 <= a < ks.len() implies ks[a] != x@ by {
                lemma_lex_irreflexive(x@);
            }
        }
        let ghost old_counts = counts@;
        keys.insert(k, copy_chars(x));
        counts.insert(k, 1);
        proof {
            let nk = seqs(keys@);
            assert(nk =~= ks.insert(k as int, x@));
            assert forall|a: int, b: int| 0 <= a < b < nk.len() implies lex_lt(#[trigger] nk[a], #[trigger] nk[b]) by {
                if a < k && b > k {
                    assert(lex_lt(ks[a], ks[b - 1]));
                } else if a > k {
                    assert(lex_lt(ks[a - 1], ks[b - 1]));
                }
            }
            assert forall|a: int| 0 <= a < nk.len() implies #[trigger] counts@[a] == count_of(seen.push(x@), nk[a]) by {
                if a < k {
                    assert(counts@[a] == old_counts[a]);
                } else if a > k {
                    assert(counts@[a] == old_counts[a - 1]);
                }
            }
            assert forall|a: int| 0 <= a < nk.len() implies #[trigger] counts@[a] >= 1 by {
                if a < k {
                    assert(counts@[a] == old_counts[a]);
                } else if a > k {
                    assert(counts@[a] == old_counts[a - 1]);
                }
            }
            assert forall|u: Seq<char>| #[trigger] count_of(seen.push(x@), u) > 0 implies exists|a: int| 0 <= a < nk.len() && #[trigger] nk[a] == u by {
                if u == x@ {
                    assert(nk[k as int] == u);
                } else {
                    let a = choose|a: int| 0 <= a < ks.len() && #[trigger] ks[a] == u;
                    if a < k {
                        assert(nk[a] == u);
                    } else {
                        assert(nk[a + 1] == u);
                    }
                }
            }
        }
    }
}

/// The entries of a table whose count is above one, in table order.
pub open spec fn repeated(ks: Seq<Seq<char>>, cs: Seq<usize>) -> Seq<(Seq<char>, nat)>
    decreases ks.len(),
{
    if ks.len() == 0 || cs.len() == 0 {
        Seq::empty()
    } else {
        let r = repeated(ks.drop_last(), cs.drop_last());
        if cs.last() > 1 {
            r.push((ks.last(), cs.last() as nat))
        } else {
            r
        }
    }
}

/// Each entry of `repeated` comes from the table, with a count above one.
proof fn lemma_repeated_sound(ks: Seq<Seq<char>>, cs: Seq<usize>, c: int)
    requires
        ks.len() == cs.len(),
        0 <= c < repeated(ks, cs).len(),
    ensures
        exists|a: int|
            0 <= a < ks.len() && ks[a] === repeated(ks, cs)[c].0 && repeated(ks, cs)[c].1 == cs[a]
                && cs[a] > 1,
    decreases ks.len(),
{
    let pk = ks.drop_last();
    let pc = cs.drop_last();
    let r = repeated(pk, pc);
    let n = ks.len() - 1;
    if c < r.len() {
        lemma_repeated_sound(pk, pc, c);
        let a = choose|a: int|
            0 <= a < pk.len() && pk[a] === r[c].0 && r[c].1 == pc[a] && pc[a] > 1;
        assert(ks[a] === pk[a] && cs[a] == pc[a]);
    } else {
        assert(ks[n] === repeated(ks, cs)[c].0);
    }
}

/// Each table entry with a count above one is in `repeated`.
proof fn lemma_repeated_complete(ks: Seq<Seq<char>>, cs: Seq<usize>, a: int)
    requires
        ks.len() == cs.len(),
        0 <= a < ks.len(),
        cs[a] > 1,
    ensures
        exists|c: int| 0 <= c < repeated(ks, cs).len() && repeated(ks, cs)[c].0 === ks[a],
    decreases ks.len(),
{
    let pk = ks.drop_last();
    let pc = cs.drop_last();
    let r = repeated(pk, pc);
    let n = ks.len() - 1;
    if a < n {
        lemma_repeated_complete(pk, pc, a);
        let c = choose|c: int| 0 <= c < r.len() && r[c].0 === pk[a];
        assert(repeated(ks, cs)[c] === r[c]);
    } else {
        assert(repeated(ks, cs)[r.len() as int].0 === ks[a]);
    }
}

/// `repeated` keeps the order of a strictly increasing table.
proof fn lemma_repeated_sorted(ks: Seq<Seq<char>>, cs: Seq<usize>)
    requires
        ks.len() == cs.len(),
        forall|a: int, b: int| 0 <= a < b < ks.len() ==> lex_lt(#[trigger] ks[a], #[trigger] ks[b]),
    ensures
        forall|c: int, e: int|
            0 <= c < e < repeated(ks, cs).len() ==> lex_lt(
                #[trigger] repeated(ks, cs)[c].0,
                #[trigger] repeated(ks, cs)[e].0,
            ),
    decreases ks.len(),
{
    if ks.len() > 0 {
        let pk = ks.drop_last();
        let pc = cs.drop_last();
        let r = repeated(pk, pc);
        let n = ks.len() - 1;
        assert forall|a: int, b: int| 0 <= a < b < pk.len() implies lex_lt(#[trigger] pk[a], #[trigger] pk[b]) by {
            assert(pk[a] === ks[a] && pk[b] === ks[b]);
        }
        lemma_repeated_sorted(pk, pc);
        if cs.last() > 1 {
            let nr = repeated(ks, cs);
            assert forall|c: int, e: int| 0 <= c < e < nr.len() implies lex_lt(#[trigger] nr[c].0, #[trigger] nr[e].0) by {
                if e < r.len() {
                    assert(nr[c] === r[c] && nr[e] === r[e]);
                } else {
                    lemma_repeated_sound(pk, pc, c);
                    let a = choose|a: int|
                        0 <= a < pk.len() && pk[a] === r[c].0 && r[c].1 == pc[a] && pc[a] > 1;
                    assert(lex_lt(ks[a], ks[n]));
                    assert(nr[c] === r[c]);
                }
            }
        }
    }
}

/// The entries of a count table whose count is above one, in table order.
fn repeated_entries(keys: &Vec<Vec<char>>, counts: &Vec<usize>, Ghost(all): Ghost<Seq<Seq<char>>>) -> (d: Vec<(String, usize)>)
    requires
        is_count_table(seqs(keys@), counts@, all),
    ensures
        is_duplicate_list(pairs(d@), all),
{
    let ghost ks = seqs(keys@);
    let mut d: Vec<(String, usize)> = Vec::new();
    let mut j: usize = 0;
    while j < keys.len()
        invariant
            j <= keys.len(),
            keys.len() == counts.len(),
            ks == seqs(keys@),
            pairs(d@) == repeated(ks.take(j as int), counts@.take(j as int)),
        decreases keys.len() - j,
    {
        assert(ks.take(j + 1).drop_last() =~= ks.take(j as int));
        assert(counts@.take(j + 1).drop_last() =~= counts@.take(j as int));
        if counts[j] > 1 {
            d.push((string_of(keys[j].as_slice()), counts[j]));
        }
        assert(pairs(d@) =~= repeated(ks.take(j + 1), counts@.take(j + 1)));
        j = j + 1;
    }
    assert(ks.take(j as int) =~= ks);
    assert(counts@.take(j as int) =~= counts@);
    proof {
        let r = repeated(ks, counts@);
        lemma_repeated_sorted(ks, counts@);
        assert forall|a: int| 0 <= a < r.len() implies #[trigger] r[a].1 == count_of(all, r[a].0) && r[a].1 > 1 by {
            lemma_repeated_sound(ks, counts@, a);
        }
        assert forall|u: Seq<char>| #[trigger] count_of(all, u) > 1 implies exists|a: int| 0 <= a < r.len() && #[trigger] r[a].0 == u by {
            let k = choose|k: int| 0 <= k < ks.len() && #[trigger] ks[k] == u;
            lemma_repeated_complete(ks, counts@, k);
        }
    }
    d
}

/// The URL and count pairs held by a vector, as sequences and numbers.
pub open spec fn pairs(d: Seq<(String, usize)>) -> Seq<(Seq<char>, nat)> {
    d.map_values(|p: (String, usize)| (p.0@, p.1 as nat))
}

/// Every URL in `urls` that occurs more than once, with its number of
/// occurrences, in increasing order of URL.
fn duplicates(urls: &Vec<Vec<char>>) -> (d: Vec<(String, usize)>)
    ensures
        is_duplicate_list(pairs(d@), seqs(urls@)),
{
    let ghost all = seqs(urls@);
    let mut keys: Vec<Vec<char>> = Vec::new();
    let mut counts: Vec<usize> = Vec::new();
    let mut i: usize = 0;
    assert(all.take(0) =~= Seq::<Seq<char>>::empty());
    while i < urls.len()
        invariant
            i <= urls.len(),
            all == seqs(urls@),
            is_count_table(seqs(keys@), counts@, all.take(i as int)),
        decreases urls.len() - i,
    {
        assert(all.take(i + 1) =~= all.take(i as int).push(urls@[i as int]@));
        count_one(&mut keys, &mut counts, urls[i].as_slice(), Ghost(all.take(i as int)));
        i = i + 1;
    }
    assert(all.take(i as int) =~= all);
    repeated_entries(&keys, &counts, Ghost(all))
}


// ---------------------------------------------------------------------------
// The report
// ---------------------------------------------------------------------------

#[derive(Debug, PartialEq, Eq)]
pub struct Report {
    /// Includes the synthetic root folder.
    pub folder_count: usize,
    pub bookmark_count: usize,
    /// 1 for the root, 2 for a folder directly under it, and so on.
    pub max_depth: usize,
    /// URLs saved more than once, sorted, with how many times each appears.
    pub duplicate_urls: Vec<(String, usize)>,
    /// Slash-joined paths of folders with no bookmarks and no sub-folders.
    pub empty_folders: Vec<String>,
}

/// What a `Report` holds, with its strings taken as character sequences.
pub struct ReportModel {
    pub folder_count: nat,
    pub bookmark_count: nat,
    pub max_depth: nat,
    pub duplicate_urls: Seq<(Seq<char>, nat)>,
    pub empty_folders: Seq<Seq<char>>,
}

impl View for Report {
    type V = ReportModel;

    open spec fn view(&self) -> ReportModel {
        ReportModel {
            folder_count: self.folder_count as nat,
            bookmark_count: self.bookmark_count as nat,
            max_depth: self.max_depth as nat,
            duplicate_urls: pairs(self.duplicate_urls@),
            empty_folders: self.empty_folders.deep_view(),
        }
    }
}

impl Clone for Report {
    fn clone(&self) -> (r: Self)
        ensures
            r@ == self@,
    {
        let mut d: Vec<(String, usize)> = Vec::new();
        let mut i: usize = 0;
        while i < self.duplicate_urls.len()
            invariant
                i <= self.duplicate_urls.len(),
                d.len() == i,
                forall|k: int| 0 <= k < i ==> #[trigger] d@[k].0@ == self.duplicate_urls@[k].0@ && d@[k].1 == self.duplicate_urls@[k].1,
            decreases self.duplicate_urls.len() - i,
        {
            let p = &self.duplicate_urls[i];
            d.push((p.0.clone(), p.1));
            i = i + 1;
        }
        assert(pairs(d@) =~= pairs(self.duplicate_urls@));
        let mut e: Vec<String> = Vec::new();
        let mut j: usize = 0;
        while j < self.empty_folders.len()
            invariant
                j <= self.empty_folders.len(),
                e.len() == j,
                forall|k: int| 0 <= k < j ==> #[trigger] e@[k]@ == self.empty_folders@[k]@,
            decreases self.empty_folders.len() - j,
        {
            e.push(self.empty_folders[j].clone());
            j = j + 1;
        }
        assert(e.deep_view() =~= self.empty_folders.deep_view());
        Report {
            folder_count: self.folder_count,
            bookmark_count: self.bookmark_count,
            max_depth: self.max_depth,
            duplicate_urls: d,
            empty_folders: e,
        }
    }
}

/// Whether `r` is the report on the tree `f`.
pub open spec fn reports_on(r: ReportModel, f: FolderModel) -> bool {
    &&& r.folder_count == folder_count(f)
    &&& r.bookmark_count == bookmark_count(f)
    &&& r.max_depth == height(f)
    &&& is_duplicate_list(r.duplicate_urls, urls(f))
    &&& r.empty_folders == empty_paths(f, f.title)
}

/// Counts the folders and bookmarks of a tree, measures its depth, and
/// finds its repeated URLs and its empty folders.
pub fn analyze(root: &Folder) -> (r: Report)
    requires
        folder_count(root@) <= usize::MAX,
        bookmark_count(root@) <= usize::MAX,
    ensures
        reports_on(r@, root@),
{
    let mut acc = Accumulator {
        folder_count: 0,
        bookmark_count: 0,
        max_depth: 0,
        urls: Vec::new(),
        empty_folders: Vec::new(),
    };
    assert(acc.urls@.map_values(|x: Vec<char>| x@) =~= Seq::<Seq<char>>::empty());
    assert(acc.empty_folders.deep_view() =~= Seq::<Seq<char>>::empty());
    let path = chars_of(root.title.as_str());
    proof {
        lemma_height_le_count(root@);
    }
    walk(root, 1, path, &mut acc);
    assert(acc.urls@.map_values(|x: Vec<char>| x@) =~= urls(root@));
    assert(acc.empty_folders.deep_view() =~= empty_paths(root@, root@.title));
    let duplicate_urls = duplicates(&acc.urls);
    assert(seqs(acc.urls@) =~= urls(root@));
    Report {
        folder_count: acc.folder_count,
        bookmark_count: acc.bookmark_count,
        max_depth: acc.max_depth,
        duplicate_urls,
        empty_folders: acc.empty_folders,
    }
}


// ---------------------------------------------------------------------------
// Laws
// ---------------------------------------------------------------------------

proof fn lemma_empty_paths_le(f: FolderModel, path: Seq<char>)
    ensures
        empty_paths(f, path).len() <= folder_count(f),
    decreases f,
{
    lemma_empty_paths_all_le(f.folders, path);
}

proof fn lemma_empty_paths_all_le(fs: Seq<FolderModel>, path: Seq<char>)
    ensures
        empty_paths_all(fs, path).len() <= folders_count(fs),
    decreases fs,
{
    if fs.len() > 0 {
        lemma_empty_paths_all_le(fs.drop_last(), path);
        lemma_empty_paths_le(fs.last(), child_path(path, fs.last().title));
    }
}

proof fn lemma_urls_len(f: FolderModel)
    ensures
        urls(f).len() == bookmark_count(f),
    decreases f,
{
    lemma_urls_all_len(f.folders);
}

proof fn lemma_urls_all_len(fs: Seq<FolderModel>)
    ensures
        urls_all(fs).len() == bookmarks_count(fs),
    decreases fs,
{
    if fs.len() > 0 {
        lemma_urls_all_len(fs.drop_last());
        lemma_urls_len(fs.last());
    }
}

/// The sum of the counts in a list of URLs and counts.
pub open spec fn count_sum(d: Seq<(Seq<char>, nat)>) -> nat
    decreases d.len(),
{
    if d.len() == 0 {
        0
    } else {
        count_sum(d.drop_last()) + d.last().1
    }
}

/// How often the URLs of `d`, taken together, occur in `all`.
spec fn occurrences(d: Seq<(Seq<char>, nat)>, all: Seq<Seq<char>>) -> nat
    decreases d.len(),
{
    if d.len() == 0 {
        0
    } else {
        occurrences(d.drop_last(), all) + count_of(all, d.last().0)
    }
}

/// How many entries of `d` have the URL `x`.
spec fn key_count(d: Seq<(Seq<char>, nat)>, x: Seq<char>) -> nat
    decreases d.len(),
{
    if d.len() == 0 {
        0
    } else {
        key_count(d.drop_last(), x) + if d.last().0 == x {
            1nat
        } else {
            0nat
        }
    }
}

spec fn strictly_sorted(d: Seq<(Seq<char>, nat)>) -> bool {
    forall|a: int, b: int| 0 <= a < b < d.len() ==> lex_lt(#[trigger] d[a].0, #[trigger] d[b].0)
}

proof fn lemma_occurrences_push(d: Seq<(Seq<char>, nat)>, all: Seq<Seq<char>>, x: Seq<char>)
    ensures
        occurrences(d, all.push(x)) == occurrences(d, all) + key_count(d, x),
    decreases d.len(),
{
    if d.len() > 0 {
        lemma_occurrences_push(d.drop_last(), all, x);
        lemma_count_of_push(all, x, d.last().0);
    }
}

proof fn lemma_occurrences_empty(d: Seq<(Seq<char>, nat)>, all: Seq<Seq<char>>)
    requires
        all.len() == 0,
    ensures
        occurrences(d, all) == 0,
    decreases d.len(),
{
    if d.len() > 0 {
        lemma_occurrences_empty(d.drop_last(), all);
    }
}

proof fn lemma_key_count_sorted(d: Seq<(Seq<char>, nat)>, x: Seq<char>)
    requires
        strictly_sorted(d),
    ensures
        key_count(d, x) <= 1,
        key_count(d, x) > 0 ==> exists|a: int| 0 <= a < d.len() && d[a].0 == x,
    decreases d.len(),
{
    if d.len() > 0 {
        let dl = d.drop_last();
        assert forall|a: int, b: int| 0 <= a < b < dl.len() implies lex_lt(#[trigger] dl[a].0, #[trigger] dl[b].0) by {
            assert(dl[a] == d[a] && dl[b] == d[b]);
        }
        lemma_key_count_sorted(dl, x);
        if d.last().0 == x && key_count(dl, x) > 0 {
            let a = choose|a: int| 0 <= a < dl.len() && dl[a].0 == x;
            assert(lex_lt(d[a].0, d[d.len() - 1].0));
            lemma_lex_irreflexive(x);
        }
        if key_count(dl, x) > 0 {
            let a = choose|a: int| 0 <= a < dl.len() && dl[a].0 == x;
            assert(d[a].0 == x);
        }
        if d.last().0 == x {
            assert(d[d.len() - 1].0 == x);
        }
    }
}

proof fn lemma_occurrences_le(d: Seq<(Seq<char>, nat)>, all: Seq<Seq<char>>)
    requires
        strictly_sorted(d),
    ensures
        occurrences(d, all) <= all.len(),
    decreases all.len(),
{
    if all.len() == 0 {
        lemma_occurrences_empty(d, all);
    } else {
        let pre = all.drop_last();
        lemma_occurrences_le(d, pre);
        assert(pre.push(all.last()) =~= all);
        lemma_occurrences_push(d, pre, all.last());
        lemma_key_count_sorted(d, all.last());
    }
}

proof fn lemma_count_sum_occurrences(d: Seq<(Seq<char>, nat)>, all: Seq<Seq<char>>)
    requires
        forall|a: int| 0 <= a < d.len() ==> #[trigger] d[a].1 == count_of(all, d[a].0),
    ensures
        count_sum(d) == occurrences(d, all),
    decreases d.len(),
{
    if d.len() > 0 {
        let dl = d.drop_last();
        assert forall|a: int| 0 <= a < dl.len() implies #[trigger] dl[a].1 == count_of(all, dl[a].0) by {
            assert(dl[a] == d[a]);
        }
        lemma_count_sum_occurrences(dl, all);
        assert(d[d.len() - 1].1 == count_of(all, d[d.len() - 1].0));
    }
}

/// The numbers of a report hang together: the depth is at least one (the
/// root) and at most the number of folders; there are no more empty folders
/// than folders; and the repeated URLs account for no more than all the
/// bookmarks.
pub proof fn law_report_bounds(r: ReportModel, f: FolderModel)
    requires
        reports_on(r, f),
    ensures
        1 <= r.max_depth <= r.folder_count,
        r.empty_folders.len() <= r.folder_count,
        count_sum(r.duplicate_urls) <= r.bookmark_count,
{
    lemma_height_le_count(f);
    lemma_empty_paths_le(f, f.title);
    lemma_urls_len(f);
    lemma_count_sum_occurrences(r.duplicate_urls, urls(f));
    lemma_occurrences_le(r.duplicate_urls, urls(f));
}

spec fn sorted_keys(k: Seq<Seq<char>>) -> bool {
    forall|a: int, b: int| 0 <= a < b < k.len() ==> lex_lt(#[trigger] k[a], #[trigger] k[b])
}

proof fn lemma_sorted_drop_last(k: Seq<Seq<char>>)
    requires
        sorted_keys(k),
        k.len() > 0,
    ensures
        sorted_keys(k.drop_last()),
        !k.drop_last().contains(k.last()),
{
    let d = k.drop_last();
    assert forall|a: int, b: int| 0 <= a < b < d.len() implies lex_lt(#[trigger] d[a], #[trigger] d[b]) by {
        assert(d[a] == k[a] && d[b] == k[b]);
    }
    if d.contains(k.last()) {
        let x = choose|x: int| 0 <= x < d.len() && d[x] == k.last();
        assert(lex_lt(k[x], k[k.len() - 1]));
        lemma_lex_irreflexive(k.last());
    }
}

/// Two strictly increasing sequences holding the same values are equal.
proof fn lemma_sorted_same_keys(a: Seq<Seq<char>>, b: Seq<Seq<char>>)
    requires
        sorted_keys(a),
        sorted_keys(b),
        forall|u: Seq<char>| a.contains(u) <==> b.contains(u),
    ensures
        a == b,
    decreases a.len() + b.len(),
{
    if a.len() == 0 {
        if b.len() > 0 {
            assert(b.contains(b[0]));
        }
        assert(a =~= b);
    } else if b.len() == 0 {
        assert(a.contains(a[0]));
    } else {
        let la = a.len() - 1;
        let lb = b.len() - 1;
        assert(a.contains(a[la]));
        assert(b.contains(b[lb]));
        let j = choose|j: int| 0 <= j < b.len() && b[j] == a[la];
        let i = choose|i: int| 0 <= i < a.len() && a[i] == b[lb];
        if j < lb {
            assert(lex_lt(b[j], b[lb]));
            if i < la {
                assert(lex_lt(a[i], a[la]));
                lemma_lex_asymmetric(a[la], b[lb]);
            } else {
                lemma_lex_irreflexive(a[la]);
            }
        }
        assert(a.last() == b.last());
        let da = a.drop_last();
        let db = b.drop_last();
        lemma_sorted_drop_last(a);
        lemma_sorted_drop_last(b);
        assert forall|u: Seq<char>| da.contains(u) <==> db.contains(u) by {
            if da.contains(u) {
                let x = choose|x: int| 0 <= x < da.len() && da[x] == u;
                assert(a.contains(u) && a[x] == u);
                let y = choose|y: int| 0 <= y < b.len() && b[y] == u;
                assert(u != a.last());
                assert(y != lb);
                assert(db[y] == u);
            }
            if db.contains(u) {
                let y = choose|y: int| 0 <= y < db.len() && db[y] == u;
                assert(b.contains(u) && b[y] == u);
                let x = choose|x: int| 0 <= x < a.len() && a[x] == u;
                assert(u != b.last());
                assert(x != la);
                assert(da[x] == u);
            }
        }
        lemma_sorted_same_keys(da, db);
        assert(a =~= da.push(a.last()));
        assert(b =~= db.push(b.last()));
    }
}

/// The repeated URLs of a list of URLs are determined by it: two lists that
/// both meet `is_duplicate_list` are the same list.
pub proof fn law_duplicate_list_unique(d1: Seq<(Seq<char>, nat)>, d2: Seq<(Seq<char>, nat)>, all: Seq<Seq<char>>)
    requires
        is_duplicate_list(d1, all),
        is_duplicate_list(d2, all),
    ensures
        d1 == d2,
{
    let k1 = d1.map_values(|p: (Seq<char>, nat)| p.0);
    let k2 = d2.map_values(|p: (Seq<char>, nat)| p.0);
    assert forall|a: int, b: int| 0 <= a < b < k1.len() implies lex_lt(#[trigger] k1[a], #[trigger] k1[b]) by {
        assert(lex_lt(d1[a].0, d1[b].0));
    }
    assert forall|a: int, b: int| 0 <= a < b < k2.len() implies lex_lt(#[trigger] k2[a], #[trigger] k2[b]) by {
        assert(lex_lt(d2[a].0, d2[b].0));
    }
    assert forall|u: Seq<char>| k1.contains(u) <==> k2.contains(u) by {
        if k1.contains(u) {
            let x = choose|x: int| 0 <= x < k1.len() && k1[x] == u;
            assert(d1[x].1 == count_of(all, d1[x].0) && d1[x].1 > 1);
            let y = choose|y: int| 0 <= y < d2.len() && #[trigger] d2[y].0 == u;
            assert(k2[y] == u);
        }
        if k2.contains(u) {
            let y = choose|y: int| 0 <= y < k2.len() && k2[y] == u;
            assert(d2[y].1 == count_of(all, d2[y].0) && d2[y].1 > 1);
            let x = choose|x: int| 0 <= x < d1.len() && #[trigger] d1[x].0 == u;
            assert(k1[x] == u);
        }
    }
    lemma_sorted_same_keys(k1, k2);
    assert(d1.len() == k1.len() && k2.len() == d2.len());
    assert forall|i: int| 0 <= i < d1.len() implies d1[i] == d2[i] by {
        assert(k1[i] == k2[i]);
        assert(k1[i] == d1[i].0 && k2[i] == d2[i].0);
        assert(d1[i].1 == count_of(all, d1[i].0));
        assert(d2[i].1 == count_of(all, d2[i].0));
    }
    assert(d1 =~= d2);
}

/// The report on a tree is determined by the tree.
pub proof fn law_report_unique(r1: ReportModel, r2: ReportModel, f: FolderModel)
    requires
        reports_on(r1, f),
        reports_on(r2, f),
    ensures
        r1 == r2,
{
    law_duplicate_list_unique(r1.duplicate_urls, r2.duplicate_urls, urls(f));
}


/// Every path `empty_paths` lists for a tree is at least as long as the
/// tree's own path; those of its sub-trees are longer.
proof fn lemma_empty_paths_lengths(f: FolderModel, path: Seq<char>)
    ensures
        forall|i: int| 0 <= i < empty_paths(f, path).len() ==> #[trigger] empty_paths(f, path)[i].len() >= path.len(),
    decreases f,
{
    lemma_empty_paths_all_lengths(f.folders, path);
    let own = if is_empty_folder(f) { seq![path] } else { Seq::<Seq<char>>::empty() };
    let rest = empty_paths_all(f.folders, path);
    assert forall|i: int| 0 <= i < empty_paths(f, path).len() implies #[trigger] empty_paths(f, path)[i].len() >= path.len() by {
        if i >= own.len() {
            assert(empty_paths(f, path)[i] == rest[i - own.len()]);
        }
    }
}

proof fn lemma_empty_paths_all_lengths(fs: Seq<FolderModel>, path: Seq<char>)
    ensures
        forall|i: int| 0 <= i < empty_paths_all(fs, path).len() ==> #[trigger] empty_paths_all(fs, path)[i].len() > path.len(),
    decreases fs,
{
    if fs.len() > 0 {
        let last = fs.last();
        let cp = child_path(path, last.title);
        lemma_empty_paths_all_lengths(fs.drop_last(), path);
        lemma_empty_paths_lengths(last, cp);
        let a = empty_paths_all(fs.drop_last(), path);
        let b = empty_paths(last, cp);
        assert forall|i: int| 0 <= i < empty_paths_all(fs, path).len() implies #[trigger] empty_paths_all(fs, path)[i].len() > path.len() by {
            if i < a.len() {
                assert(empty_paths_all(fs, path)[i] == a[i]);
            } else {
                assert(empty_paths_all(fs, path)[i] == b[i - a.len()]);
            }
        }
    }
}

/// A folder's own path is listed among the empty folders exactly when it
/// holds no bookmark and no sub-folder; a folder that holds either is never
/// listed, and one that holds neither is listed once, alone.
pub proof fn law_empty_folder_listed(f: FolderModel, path: Seq<char>)
    ensures
        empty_paths(f, path).contains(path) <==> (f.bookmarks.len() == 0 && f.folders.len() == 0),
        f.bookmarks.len() == 0 && f.folders.len() == 0 ==> empty_paths(f, path) == seq![path],
{
    lemma_empty_paths_all_lengths(f.folders, path);
    let rest = empty_paths_all(f.folders, path);
    if f.bookmarks.len() == 0 && f.folders.len() == 0 {
        assert(rest =~= Seq::<Seq<char>>::empty());
        assert(empty_paths(f, path) =~= seq![path]);
        assert(empty_paths(f, path)[0] == path);
    } else {
        assert(empty_paths(f, path) =~= rest);
        if empty_paths(f, path).contains(path) {
            let i = choose|i: int| 0 <= i < empty_paths(f, path).len() && empty_paths(f, path)[i] == path;
            assert(rest[i].len() > path.len());
        }
    }
}

/// The report lists the root among the empty folders exactly when the root
/// holds no bookmark and no sub-folder.
pub proof fn law_report_empty_root(r: ReportModel, f: FolderModel)
    requires
        reports_on(r, f),
    ensures
        r.empty_folders.contains(f.title) <==> (f.bookmarks.len() == 0 && f.folders.len() == 0),
{
    law_empty_folder_listed(f, f.title);
}

/// In the list of repeated URLs, a URL comes before every longer URL that
/// starts with it.
pub proof fn law_duplicates_prefix_first(
    d: Seq<(Seq<char>, nat)>,
    all: Seq<Seq<char>>,
    i: int,
    j: int,
    t: Seq<char>,
)
    requires
        is_duplicate_list(d, all),
        0 <= i < d.len(),
        0 <= j < d.len(),
        t.len() > 0,
        d[j].0 == d[i].0 + t,
    ensures
        i < j,
{
    law_prefix_sorts_first(d[i].0, t);
    if j < i {
        assert(lex_lt(d[j].0, d[i].0));
    }
    if i == j {
        assert(d[j].0.len() == d[i].0.len() + t.len());
    }
}


/// A folder with nothing in it counts as one folder, no bookmark, depth
/// one, and is its own only empty folder.
pub proof fn law_counts_of_empty_folder(title: Seq<char>, last_modified: Option<i64>, path: Seq<char>)
    ensures
        folder_count(empty_folder(title, last_modified)) == 1,
        bookmark_count(empty_folder(title, last_modified)) == 0,
        height(empty_folder(title, last_modified)) == 1,
        urls(empty_folder(title, last_modified)).len() == 0,
        empty_paths(empty_folder(title, last_modified), path) == seq![path],
{
    let f = empty_folder(title, last_modified);
    assert(urls(f) =~= Seq::<Seq<char>>::empty());
    law_empty_folder_listed(f, path);
}

/// One more bookmark in a folder is one more bookmark in the tree, and one
/// more occurrence of its URL; the folders and the depth stay as they were.
pub proof fn law_counts_with_bookmark(f: FolderModel, b: BookmarkModel)
    ensures
        bookmark_count(with_bookmark(f, b)) == bookmark_count(f) + 1,
        folder_count(with_bookmark(f, b)) == folder_count(f),
        height(with_bookmark(f, b)) == height(f),
        urls(with_bookmark(f, b)).len() == urls(f).len() + 1,
        urls(with_bookmark(f, b)).to_multiset() == urls(f).to_multiset().insert(b.url),
{
    let g = with_bookmark(f, b);
    let own = f.bookmarks.map_values(|x: BookmarkModel| x.url);
    let rest = urls_all(f.folders);
    assert(g.bookmarks.map_values(|x: BookmarkModel| x.url) =~= own.push(b.url));
    assert(urls(g) =~= own.push(b.url) + rest);
    assert(urls(f) =~= own + rest);
    vstd::seq_lib::lemma_multiset_commutative(own.push(b.url), rest);
    vstd::seq_lib::lemma_multiset_commutative(own, rest);
    own.to_multiset_ensures();
    assert(own.push(b.url).to_multiset() =~= own.to_multiset().insert(b.url));
}

/// A sub-folder added to a folder brings its own folders and bookmarks
/// along, and the tree is as deep as the deeper of the folder and the
/// sub-folder one level down.
pub proof fn law_counts_with_folder(f: FolderModel, c: FolderModel)
    ensures
        folder_count(with_folder(f, c)) == folder_count(f) + folder_count(c),
        bookmark_count(with_folder(f, c)) == bookmark_count(f) + bookmark_count(c),
        height(with_folder(f, c)) == if height(f) >= height(c) + 1 {
            height(f)
        } else {
            height(c) + 1
        },
{
    let g = with_folder(f, c);
    assert(g.folders.drop_last() =~= f.folders);
    assert(g.folders.last() == c);
}

} // verus!
