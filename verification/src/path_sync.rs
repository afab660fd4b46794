//! The synchronization manager: it indexes the path entries of the target
//! files under the watch roots, reacts to filesystem notifications by
//! marking paths present or absent, and propagates explicit renames.

use vstd::prelude::*;

use crate::disk::path_exists;
use crate::events::{FsEvent, FsEventKind};
use crate::target_files::{PathEntry, PathEntryView, TargetFile, TargetFileView};
use crate::text::{chars_eq, copy_range, from_chars, starts_with_chars, starts_with_seq, str_eq, to_chars};

verus! {

/// One indexed path: where it was first seen, where it points now, whether
/// it exists on disk, and which target files (by index) reference it.
#[derive(Clone, Debug)]
pub struct PathMapping {
    pub original_path: String,
    pub current_path: String,
    pub exists: bool,
    pub target_files: Vec<usize>,
}

/// The mathematical shape of a path mapping.
pub struct PathMappingView {
    pub original_path: Seq<char>,
    pub current_path: Seq<char>,
    pub exists: bool,
    pub target_files: Seq<usize>,
}

impl View for PathMapping {
    type V = PathMappingView;

    open spec fn view(&self) -> PathMappingView {
        PathMappingView {
            original_path: self.original_path@,
            current_path: self.current_path@,
            exists: self.exists,
            target_files: self.target_files@,
        }
    }
}

/// True when `prefix` names the path itself or one of its ancestors,
/// compared textually at component boundaries. Canonical comparison is the
/// caller's: resolving links or relative forms is filesystem work, so
/// paths must be canonicalized before they enter the engine.
pub open spec fn is_path_prefix(prefix: Seq<char>, path: Seq<char>) -> bool {
    path == prefix || starts_with_seq(path, prefix + seq!['/'])
}

/// A root with its trailing separators dropped, so a root written
/// `/watch/` names the same subtree as `/watch`.
pub open spec fn strip_trailing_separators(p: Seq<char>) -> Seq<char>
    decreases p.len(),
{
    if p.len() > 0 && p[p.len() - 1] == '/' {
        strip_trailing_separators(p.drop_last())
    } else {
        p
    }
}

/// True when the path lies under at least one watch root; roots are taken
/// without their trailing separators.
pub open spec fn in_watch_roots(path: Seq<char>, roots: Seq<Seq<char>>) -> bool {
    exists|k: int|
        0 <= k < roots.len() && is_path_prefix(strip_trailing_separators(roots[k]), path)
}

/// A copy of the root without its trailing separators.
fn strip_root(root: &str) -> (r: String)
    ensures
        r@ == strip_trailing_separators(root@),
{
    let mut rv = to_chars(root);
    while rv.len() > 0 && rv[rv.len() - 1] == '/'
        invariant
            strip_trailing_separators(rv@) == strip_trailing_separators(root@),
        decreases rv@.len(),
    {
        let ghost before = rv@;
        rv.pop();
        proof {
            assert(rv@ =~= before.drop_last());
            assert(strip_trailing_separators(before) == strip_trailing_separators(before.drop_last()));
        }
    }
    proof {
        assert(strip_trailing_separators(rv@) == rv@);
    }
    from_chars(&rv)
}

/// True when `prefix` names `path` itself or one of its ancestors.
pub fn path_is_under(prefix: &str, path: &str) -> (r: bool)
    ensures
        r == is_path_prefix(prefix@, path@),
{
    let pv = to_chars(prefix);
    let av = to_chars(path);
    if chars_eq(&av, &pv) {
        return true;
    }
    let mut pslash = copy_range(&pv, 0, pv.len());
    pslash.push('/');
    proof {
        assert(pv@.subrange(0, pv@.len() as int) =~= pv@);
        assert(pslash@ =~= prefix@ + seq!['/']);
    }
    starts_with_chars(&av, &pslash)
}

/// True when the path lies under at least one of the roots.
pub fn under_some_root(path: &str, roots: &Vec<String>) -> (r: bool)
    ensures
        r == in_watch_roots(path@, roots.deep_view()),
{
    let ghost rv = roots.deep_view();
    let mut k: usize = 0;
    while k < roots.len()
        invariant
            k <= roots@.len(),
            rv == roots.deep_view(),
            rv.len() == roots@.len(),
            forall|j: int|
                0 <= j < k ==> !is_path_prefix(strip_trailing_separators(#[trigger] rv[j]), path@),
        decreases roots@.len() - k,
    {
        let root = strip_root(roots[k].as_str());
        if path_is_under(root.as_str(), path) {
            proof {
                assert(rv[k as int] == roots@[k as int]@);
            }
            return true;
        }
        k = k + 1;
    }
    false
}

/// The entries whose paths lie under some watch root, in order.
pub open spec fn filter_in_roots(entries: Seq<PathEntryView>, roots: Seq<Seq<char>>) -> Seq<
    PathEntryView,
>
    decreases entries.len(),
{
    if entries.len() == 0 {
        Seq::empty()
    } else {
        let rest = filter_in_roots(entries.drop_first(), roots);
        if in_watch_roots(entries[0].path, roots) {
            seq![entries[0]] + rest
        } else {
            rest
        }
    }
}

proof fn lemma_filter_in_roots_concat(
    a: Seq<PathEntryView>,
    b: Seq<PathEntryView>,
    roots: Seq<Seq<char>>,
)
    ensures
        filter_in_roots(a + b, roots) == filter_in_roots(a, roots) + filter_in_roots(b, roots),
    decreases a.len(),
{
    if a.len() == 0 {
        assert(a + b =~= b);
        assert(filter_in_roots(a, roots) + filter_in_roots(b, roots) =~= filter_in_roots(
            b,
            roots,
        ));
    } else {
        lemma_filter_in_roots_concat(a.drop_first(), b, roots);
        assert((a + b).drop_first() =~= a.drop_first() + b);
        assert((a + b)[0] == a[0]);
        if in_watch_roots(a[0].path, roots) {
            assert(seq![a[0]] + (filter_in_roots(a.drop_first(), roots) + filter_in_roots(
                b,
                roots,
            )) =~= (seq![a[0]] + filter_in_roots(a.drop_first(), roots)) + filter_in_roots(
                b,
                roots,
            ));
        }
    }
}

proof fn lemma_filter_in_roots_singleton(e: PathEntryView, roots: Seq<Seq<char>>)
    ensures
        filter_in_roots(seq![e], roots) == if in_watch_roots(e.path, roots) {
            seq![e]
        } else {
            Seq::<PathEntryView>::empty()
        },
{
    assert(seq![e].drop_first() =~= Seq::<PathEntryView>::empty());
    assert(filter_in_roots(Seq::<PathEntryView>::empty(), roots) == Seq::<PathEntryView>::empty());
    if in_watch_roots(e.path, roots) {
        assert(seq![e] + Seq::<PathEntryView>::empty() =~= seq![e]);
    }
}

/// Every filtered entry lies under a root, and every entry under a root is
/// among the filtered ones.
pub proof fn lemma_filter_in_roots_membership(entries: Seq<PathEntryView>, roots: Seq<Seq<char>>)
    ensures
        forall|i: int|
            0 <= i < filter_in_roots(entries, roots).len() ==> in_watch_roots(
                (#[trigger] filter_in_roots(entries, roots)[i]).path,
                roots,
            ) && entries.contains(filter_in_roots(entries, roots)[i]),
        forall|i: int|
            0 <= i < entries.len() && in_watch_roots((#[trigger] entries[i]).path, roots)
                ==> filter_in_roots(entries, roots).contains(entries[i]),
    decreases entries.len(),
{
    if entries.len() > 0 {
        lemma_filter_in_roots_membership(entries.drop_first(), roots);
        let rest = filter_in_roots(entries.drop_first(), roots);
        let whole = filter_in_roots(entries, roots);
        assert forall|i: int|
            0 <= i < whole.len() implies in_watch_roots(
            (#[trigger] whole[i]).path,
            roots,
        ) && entries.contains(whole[i]) by {
            if in_watch_roots(entries[0].path, roots) {
                if i == 0 {
                    assert(whole[0] == entries[0]);
                    assert(entries[0] == entries[0]);
                } else {
                    assert(whole[i] == rest[i - 1]);
                    let j = choose|j: int|
                        0 <= j < entries.drop_first().len() && entries.drop_first()[j] == rest[i
                            - 1];
                    assert(entries[j + 1] == rest[i - 1]);
                }
            } else {
                assert(whole[i] == rest[i]);
                let j = choose|j: int|
                    0 <= j < entries.drop_first().len() && entries.drop_first()[j] == rest[i];
                assert(entries[j + 1] == rest[i]);
            }
        }
        assert forall|i: int|
            0 <= i < entries.len() && in_watch_roots(
                (#[trigger] entries[i]).path,
                roots,
            ) implies whole.contains(entries[i]) by {
            if i == 0 {
                assert(whole[0] == entries[0]);
            } else {
                assert(entries.drop_first()[i - 1] == entries[i]);
                assert(rest.contains(entries[i]));
                let j = choose|j: int| 0 <= j < rest.len() && rest[j] == entries[i];
                if in_watch_roots(entries[0].path, roots) {
                    assert(whole[j + 1] == rest[j]);
                } else {
                    assert(whole[j] == rest[j]);
                }
            }
        }
    }
}

/// The views of a sequence of path entries.
pub open spec fn entry_views(s: Seq<PathEntry>) -> Seq<PathEntryView> {
    Seq::new(s.len(), |i: int| s[i]@)
}

/// The views of a sequence of target files.
pub open spec fn target_views(s: Seq<TargetFile>) -> Seq<TargetFileView> {
    Seq::new(s.len(), |i: int| s[i]@)
}

/// The views of a sequence of path mappings.
pub open spec fn mapping_views(s: Seq<PathMapping>) -> Seq<PathMappingView> {
    Seq::new(s.len(), |i: int| s[i]@)
}

/// No two mappings share a key.
pub open spec fn keys_unique(ms: Seq<PathMappingView>) -> bool {
    forall|i: int, j: int|
        0 <= i < j < ms.len() ==> (#[trigger] ms[i]).current_path != (#[trigger] ms[j]).current_path
}

/// True when the target file holds an entry for the path.
pub open spec fn target_has_path(tf: TargetFileView, p: Seq<char>) -> bool {
    exists|e: int| 0 <= e < tf.paths.len() && (#[trigger] tf.paths[e]).path == p
}

/// A mapping's owners name target files that really reference its path.
pub open spec fn owners_sound(m: PathMappingView, tfs: Seq<TargetFileView>) -> bool {
    &&& m.target_files.len() >= 1
    &&& forall|k: int|
        0 <= k < m.target_files.len() ==> (#[trigger] m.target_files[k]) < tfs.len()
            && target_has_path(tfs[m.target_files[k] as int], m.current_path)
}

/// Every mapping is freshly indexed (key equals its origin), lies under a
/// watch root, and is owned by files that reference it.
pub open spec fn index_sound(
    ms: Seq<PathMappingView>,
    tfs: Seq<TargetFileView>,
    roots: Seq<Seq<char>>,
) -> bool {
    forall|i: int|
        0 <= i < ms.len() ==> {
            let m = #[trigger] ms[i];
            &&& m.original_path == m.current_path
            &&& in_watch_roots(m.current_path, roots)
            &&& owners_sound(m, tfs)
        }
}

/// Every in-root entry of every target file is indexed, with its file
/// among the owners.
pub open spec fn index_complete(
    ms: Seq<PathMappingView>,
    tfs: Seq<TargetFileView>,
    roots: Seq<Seq<char>>,
) -> bool {
    forall|t: int, e: int|
        0 <= t < tfs.len() && 0 <= e < tfs[t].paths.len() && in_watch_roots(
            (#[trigger] tfs[t].paths[e]).path,
            roots,
        ) ==> exists|i: int|
            0 <= i < ms.len() && (#[trigger] ms[i]).current_path == tfs[t].paths[e].path
                && ms[i].target_files.contains(t as usize)
}

/// The manager: the loaded target files, the index of their in-root paths,
/// and the configured watch roots.
pub struct PathSyncManager {
    pub target_files: Vec<TargetFile>,
    pub path_mappings: Vec<PathMapping>,
    pub watch_paths: Vec<String>,
}

/// A copy of the entry with the same view.
fn clone_entry(e: &PathEntry) -> (r: PathEntry)
    ensures
        r@ == e@,
{
    let last: Option<String> = match &e.last_known_path {
        Some(p) => Some(p.clone()),
        None => None,
    };
    PathEntry { path: e.path.clone(), exists: e.exists, last_known_path: last }
}

/// The index of the mapping keyed by `key`, if one exists.
fn find_mapping_index(ms: &Vec<PathMapping>, key: &str) -> (r: Option<usize>)
    ensures
        r matches Some(i) ==> i < ms@.len() && ms@[i as int]@.current_path == key@,
        r is None ==> forall|i: int| 0 <= i < ms@.len() ==> ms@[i]@.current_path != key@,
{
    let mut i: usize = 0;
    while i < ms.len()
        invariant
            i <= ms@.len(),
            forall|j: int| 0 <= j < i ==> ms@[j]@.current_path != key@,
        decreases ms@.len() - i,
    {
        if str_eq(ms[i].current_path.as_str(), key) {
            return Some(i);
        }
        i = i + 1;
    }
    None
}

impl PathSyncManager {
    /// The well-formedness of the index: keys are unique and every owner
    /// index names a loaded target file.
    pub open spec fn wf(&self) -> bool {
        &&& keys_unique(mapping_views(self.path_mappings@))
        &&& forall|i: int, k: int|
            0 <= i < self.path_mappings@.len() && 0 <= k
                < self.path_mappings@[i]@.target_files.len()
                ==> (#[trigger] self.path_mappings@[i]@.target_files[k])
                < self.target_files@.len()
    }

    /// Keeps the entries whose paths lie under some watch root, in order.
    pub fn filter_paths_in_watch_dirs(paths: &Vec<PathEntry>, watch_paths: &Vec<String>) -> (r:
        Vec<PathEntry>)
        ensures
            entry_views(r@) == filter_in_roots(entry_views(paths@), watch_paths.deep_view()),
    {
        let ghost evs = entry_views(paths@);
        let ghost roots = watch_paths.deep_view();
        let mut out: Vec<PathEntry> = Vec::new();
        let mut i: usize = 0;
        proof {
            assert(evs.subrange(0, 0) =~= Seq::<PathEntryView>::empty());
            assert(entry_views(out@) =~= filter_in_roots(evs.subrange(0, 0), roots));
        }
        while i < paths.len()
            invariant
                i <= paths@.len(),
                evs == entry_views(paths@),
                roots == watch_paths.deep_view(),
                evs.len() == paths@.len(),
                entry_views(out@) == filter_in_roots(evs.subrange(0, i as int), roots),
            decreases paths@.len() - i,
        {
            let keep = under_some_root(paths[i].path.as_str(), watch_paths);
            let ghost out_prev = out@;
            if keep {
                out.push(clone_entry(&paths[i]));
                proof {
                    assert(entry_views(out@) =~= entry_views(out_prev) + seq![evs[i as int]]);
                }
            }
            proof {
                let pre = evs.subrange(0, i as int);
                let cur = evs.subrange(0, i + 1 as int);
                assert(cur =~= pre + seq![evs[i as int]]);
                lemma_filter_in_roots_concat(pre, seq![evs[i as int]], roots);
                lemma_filter_in_roots_singleton(evs[i as int], roots);
                assert(evs[i as int].path == paths@[i as int]@.path);
                if !keep {
                    assert(filter_in_roots(pre, roots) + Seq::<PathEntryView>::empty()
                        =~= filter_in_roots(pre, roots));
                }
            }
            i = i + 1;
        }
        proof {
            assert(evs.subrange(0, paths@.len() as int) =~= evs);
        }
        out
    }

    /// Builds the path index over the given target files: the in-root path
    /// of every file becomes one mapping, files sharing a path fan into
    /// that mapping's owners.
    fn build_index(target_files: &Vec<TargetFile>, watch_paths: &Vec<String>) -> (r: Vec<
        PathMapping,
    >)
        ensures
            keys_unique(mapping_views(r@)),
            index_sound(mapping_views(r@), target_views(target_files@), watch_paths.deep_view()),
            index_complete(
                mapping_views(r@),
                target_views(target_files@),
                watch_paths.deep_view(),
            ),
    {
        let ghost tfs = target_views(target_files@);
        let ghost roots = watch_paths.deep_view();
        let mut mappings: Vec<PathMapping> = Vec::new();
        let mut index: usize = 0;
        while index < target_files.len()
            invariant
                index <= target_files@.len(),
                tfs == target_views(target_files@),
                roots == watch_paths.deep_view(),
                tfs.len() == target_files@.len(),
                keys_unique(mapping_views(mappings@)),
                index_sound(mapping_views(mappings@), tfs, roots),
                forall|t: int, e: int|
                    0 <= t < index && 0 <= e < tfs[t].paths.len() && in_watch_roots(
                        (#[trigger] tfs[t].paths[e]).path,
                        roots,
                    ) ==> exists|i: int|
                        0 <= i < mapping_views(mappings@).len() && (#[trigger] mapping_views(
                            mappings@,
                        )[i]).current_path == tfs[t].paths[e].path && mapping_views(
                            mappings@,
                        )[i].target_files.contains(t as usize),
            decreases target_files@.len() - index,
        {
            let valid = Self::filter_paths_in_watch_dirs(&target_files[index].paths, watch_paths);
            let ghost filtered = entry_views(valid@);
            proof {
                assert(entry_views(target_files@[index as int].paths@) =~= tfs[
                    index as int
                ].paths);
                lemma_filter_in_roots_membership(tfs[index as int].paths, roots);
            }
            let mut j: usize = 0;
            while j < valid.len()
                invariant
                    j <= valid@.len(),
                    index < target_files@.len(),
                    tfs == target_views(target_files@),
                    roots == watch_paths.deep_view(),
                    tfs.len() == target_files@.len(),
                    filtered == entry_views(valid@),
                    filtered.len() == valid@.len(),
                    filtered == filter_in_roots(tfs[index as int].paths, roots),
                    keys_unique(mapping_views(mappings@)),
                    index_sound(mapping_views(mappings@), tfs, roots),
                    forall|t: int, e: int|
                        0 <= t < index && 0 <= e < tfs[t].paths.len() && in_watch_roots(
                            (#[trigger] tfs[t].paths[e]).path,
                            roots,
                        ) ==> exists|i: int|
                            0 <= i < mapping_views(mappings@).len() && (#[trigger] mapping_views(
                                mappings@,
                            )[i]).current_path == tfs[t].paths[e].path && mapping_views(
                                mappings@,
                            )[i].target_files.contains(t as usize),
                    forall|jj: int|
                        0 <= jj < j ==> exists|i: int|
                            0 <= i < mapping_views(mappings@).len() && (#[trigger] mapping_views(
                                mappings@,
                            )[i]).current_path == (#[trigger] filtered[jj]).path && mapping_views(
                                mappings@,
                            )[i].target_files.contains(index),
                decreases valid@.len() - j,
            {
                let ghost ms_prev = mapping_views(mappings@);
                let key = &valid[j].path;
                proof {
                    assert(filtered[j as int] == valid@[j as int]@);
                    assert(in_watch_roots(key@, roots) && target_has_path(
                        tfs[index as int],
                        key@,
                    )) by {
                        lemma_filter_in_roots_membership(tfs[index as int].paths, roots);
                        assert(tfs[index as int].paths.contains(filtered[j as int]));
                        let e = choose|e: int|
                            0 <= e < tfs[index as int].paths.len() && tfs[index as int].paths[e]
                                == filtered[j as int];
                        assert(tfs[index as int].paths[e].path == key@);
                    }
                }
                match find_mapping_index(&mappings, key.as_str()) {
                    Some(mi) => {
                        let mut m = mappings.remove(mi);
                        let ghost m_old = m@;
                        m.target_files.push(index);
                        proof {
                            assert(m@.target_files == m_old.target_files.push(index));
                        }
                        mappings.insert(mi, m);
                        proof {
                            let ms_now = mapping_views(mappings@);
                            assert(ms_now.len() == ms_prev.len());
                            assert forall|i: int| 0 <= i < ms_now.len() implies (i == mi as int
                                || ms_now[i] == ms_prev[i]) by {}
                            assert(ms_now[mi as int].current_path == ms_prev[
                                mi as int
                            ].current_path);
                            assert(ms_now[mi as int].original_path == ms_prev[
                                mi as int
                            ].original_path);
                            assert(ms_now[mi as int].exists == ms_prev[mi as int].exists);
                            assert(ms_now[mi as int].target_files == ms_prev[
                                mi as int
                            ].target_files.push(index));
                            assert(keys_unique(ms_now));
                            assert(index_sound(ms_now, tfs, roots)) by {
                                assert forall|i: int| 0 <= i < ms_now.len() implies {
                                    let mm = #[trigger] ms_now[i];
                                    &&& mm.original_path == mm.current_path
                                    &&& in_watch_roots(mm.current_path, roots)
                                    &&& owners_sound(mm, tfs)
                                } by {
                                    if i == mi as int {
                                        assert(owners_sound(ms_now[i], tfs)) by {
                                            assert forall|k: int|
                                                0 <= k < ms_now[i].target_files.len() implies (
                                            #[trigger] ms_now[i].target_files[k]) < tfs.len()
                                                && target_has_path(
                                                tfs[ms_now[i].target_files[k] as int],
                                                ms_now[i].current_path,
                                            ) by {
                                                if k < ms_prev[i].target_files.len() {
                                                    assert(ms_now[i].target_files[k] == ms_prev[
                                                        i
                                                    ].target_files[k]);
                                                } else {
                                                    assert(ms_now[i].target_files[k] == index);
                                                }
                                            }
                                        }
                                    }
                                }
                            }
                            assert forall|i: int, v: usize|
                                0 <= i < ms_prev.len() && ms_prev[i].target_files.contains(
                                    v,
                                ) implies ms_now[i].target_files.contains(v) by {
                                let k = choose|k: int|
                                    0 <= k < ms_prev[i].target_files.len() && ms_prev[
                                        i
                                    ].target_files[k] == v;
                                if i == mi as int {
                                    assert(ms_now[i].target_files[k] == v);
                                } else {
                                    assert(ms_now[i].target_files[k] == v);
                                }
                            }
                            assert(ms_now[mi as int].target_files[ms_prev[
                                mi as int
                            ].target_files.len() as int] == index);
                            assert(ms_now[mi as int].target_files.contains(index));
                        }
                    },
                    None => {
                        let owners: Vec<usize> = vec![index];
                        let exists_flag = valid[j].exists;
                        mappings.push(
                            PathMapping {
                                original_path: key.clone(),
                                current_path: key.clone(),
                                exists: exists_flag,
                                target_files: owners,
                            },
                        );
                        proof {
                            let ms_now = mapping_views(mappings@);
                            assert(ms_now.len() == ms_prev.len() + 1);
                            assert(forall|i: int|
                                0 <= i < ms_prev.len() ==> ms_now[i] == ms_prev[i]);
                            let nm = ms_now[ms_prev.len() as int];
                            assert(nm.current_path == key@);
                            assert(nm.original_path == key@);
                            assert(nm.target_files == seq![index]);
                            assert(nm.target_files[0] == index);
                            assert(nm.target_files.contains(index));
                            assert(keys_unique(ms_now)) by {
                                assert forall|a: int, b: int|
                                    0 <= a < b < ms_now.len() implies (
                                #[trigger] ms_now[a]).current_path != (
                                #[trigger] ms_now[b]).current_path by {
                                    if b == ms_prev.len() as int {
                                        assert(ms_now[a] == ms_prev[a]);
                                        assert(ms_prev[a].current_path != key@);
                                    }
                                }
                            }
                            assert(owners_sound(nm, tfs));
                        }
                    },
                }
                proof {
                    let ms_now = mapping_views(mappings@);
                    assert(exists|i: int|
                        0 <= i < ms_now.len() && (#[trigger] ms_now[i]).current_path == filtered[
                            j as int
                        ].path && ms_now[i].target_files.contains(index));
                }
                j = j + 1;
            }
            proof {
                let ms_now = mapping_views(mappings@);
                assert forall|e: int|
                    0 <= e < tfs[index as int].paths.len() && in_watch_roots(
                        (#[trigger] tfs[index as int].paths[e]).path,
                        roots,
                    ) implies exists|i: int|
                    0 <= i < ms_now.len() && (#[trigger] ms_now[i]).current_path == tfs[
                        index as int
                    ].paths[e].path && ms_now[i].target_files.contains(index) by {
                    lemma_filter_in_roots_membership(tfs[index as int].paths, roots);
                    assert(filtered.contains(tfs[index as int].paths[e]));
                    let jj = choose|jj: int|
                        0 <= jj < filtered.len() && filtered[jj] == tfs[index as int].paths[e];
                }
            }
            index = index + 1;
        }
        mappings
    }

    /// Loads the manager from already-read target files: their in-root
    /// entries are indexed, with files sharing a path fanned into one
    /// mapping's owners.
    pub fn new(target_files: Vec<TargetFile>, watch_paths: Vec<String>) -> (r: PathSyncManager)
        ensures
            r.target_files == target_files,
            r.watch_paths == watch_paths,
            r.wf(),
            index_sound(
                mapping_views(r.path_mappings@),
                target_views(r.target_files@),
                r.watch_paths.deep_view(),
            ),
            index_complete(
                mapping_views(r.path_mappings@),
                target_views(r.target_files@),
                r.watch_paths.deep_view(),
            ),
    {
        let mappings = Self::build_index(&target_files, &watch_paths);
        let r = PathSyncManager { target_files, path_mappings: mappings, watch_paths };
        proof {
            lemma_sound_index_is_wf(&r);
        }
        r
    }

    /// Replaces the target files with re-parsed ones and rebuilds the path
    /// index from scratch, discarding prior bookkeeping.
    pub fn refresh(&mut self, reloaded: Vec<TargetFile>)
        ensures
            final(self).target_files == reloaded,
            final(self).watch_paths == old(self).watch_paths,
            final(self).wf(),
            index_sound(
                mapping_views(final(self).path_mappings@),
                target_views(final(self).target_files@),
                final(self).watch_paths.deep_view(),
            ),
            index_complete(
                mapping_views(final(self).path_mappings@),
                target_views(final(self).target_files@),
                final(self).watch_paths.deep_view(),
            ),
    {
        self.target_files = reloaded;
        self.path_mappings = Self::build_index(&self.target_files, &self.watch_paths);
        proof {
            lemma_sound_index_is_wf(self);
        }
    }
}

/// A manager whose index is sound for its own files and roots is
/// well-formed.
proof fn lemma_sound_index_is_wf(m: &PathSyncManager)
    requires
        keys_unique(mapping_views(m.path_mappings@)),
        index_sound(
            mapping_views(m.path_mappings@),
            target_views(m.target_files@),
            m.watch_paths.deep_view(),
        ),
    ensures
        m.wf(),
{
    let ms = mapping_views(m.path_mappings@);
    let tfs = target_views(m.target_files@);
    assert(tfs.len() == m.target_files@.len());
    assert forall|i: int, k: int|
        0 <= i < m.path_mappings@.len() && 0 <= k
            < m.path_mappings@[i]@.target_files.len() implies (
    #[trigger] m.path_mappings@[i]@.target_files[k]) < m.target_files@.len() by {
        assert(ms[i] == m.path_mappings@[i]@);
        assert(owners_sound(ms[i], tfs));
        assert(ms[i].target_files[k] < tfs.len());
    }
}

/// An entry with its existence flag forced to `v` when it is for path `p`.
pub open spec fn entry_marked(e: PathEntryView, p: Seq<char>, v: bool) -> PathEntryView {
    if e.path == p {
        PathEntryView { exists: v, ..e }
    } else {
        e
    }
}

/// A target file with every entry for path `p` marked `v`.
pub open spec fn file_marked(tf: TargetFileView, p: Seq<char>, v: bool) -> TargetFileView {
    TargetFileView {
        paths: tf.paths.map_values(|e: PathEntryView| entry_marked(e, p, v)),
        ..tf
    }
}

/// How one Create notification changes the manager: the mapping keyed by
/// the created path (if any) becomes existing, and when it was absent
/// before, every owning target file's entries for that path are restored;
/// nothing else moves.
pub open spec fn created_step(pre: PathSyncManager, post: PathSyncManager, path: Seq<char>) -> bool {
    let ms0 = mapping_views(pre.path_mappings@);
    let ms1 = mapping_views(post.path_mappings@);
    &&& post.watch_paths == pre.watch_paths
    &&& ms1.len() == ms0.len()
    &&& forall|i: int|
        0 <= i < ms0.len() ==> {
            let m0 = #[trigger] ms0[i];
            let m1 = ms1[i];
            &&& m1.current_path == m0.current_path
            &&& m1.original_path == m0.original_path
            &&& m1.target_files == m0.target_files
            &&& m1.exists == (if m0.current_path == path {
                true
            } else {
                m0.exists
            })
        }
    &&& post.target_files@.len() == pre.target_files@.len()
    &&& forall|t: int|
        0 <= t < pre.target_files@.len() ==> (#[trigger] post.target_files@[t])@ == (
        if restored_owner(ms0, path, t) {
            file_marked(pre.target_files@[t]@, path, true)
        } else {
            pre.target_files@[t]@
        })
}

/// True when some mapping keyed by the restored path was absent and names
/// target `t` among its owners.
pub open spec fn restored_owner(ms: Seq<PathMappingView>, path: Seq<char>, t: int) -> bool {
    exists|i: int|
        0 <= i < ms.len() && (#[trigger] ms[i]).current_path == path && !ms[i].exists && ms[
            i
        ].target_files.contains(t as usize)
}

/// How one Remove notification changes the manager: the mapping keyed by
/// the removed path (if any) becomes a tombstone (kept, marked absent) and
/// every owning target file's entries for that path are marked deleted;
/// nothing else moves.
pub open spec fn removed_step(pre: PathSyncManager, post: PathSyncManager, path: Seq<char>) -> bool {
    let ms0 = mapping_views(pre.path_mappings@);
    let ms1 = mapping_views(post.path_mappings@);
    &&& post.watch_paths == pre.watch_paths
    &&& ms1.len() == ms0.len()
    &&& forall|i: int|
        0 <= i < ms0.len() ==> {
            let m0 = #[trigger] ms0[i];
            let m1 = ms1[i];
            &&& m1.current_path == m0.current_path
            &&& m1.original_path == m0.original_path
            &&& m1.target_files == m0.target_files
            &&& m1.exists == (if m0.current_path == path {
                false
            } else {
                m0.exists
            })
        }
    &&& post.target_files@.len() == pre.target_files@.len()
    &&& forall|t: int|
        0 <= t < pre.target_files@.len() ==> (#[trigger] post.target_files@[t])@ == (
        if removed_owner(ms0, path, t) {
            file_marked(pre.target_files@[t]@, path, false)
        } else {
            pre.target_files@[t]@
        })
}

/// True when some mapping keyed by the removed path names target `t` among
/// its owners.
pub open spec fn removed_owner(ms: Seq<PathMappingView>, path: Seq<char>, t: int) -> bool {
    exists|i: int|
        0 <= i < ms.len() && (#[trigger] ms[i]).current_path == path && ms[i].target_files.contains(
            t as usize,
        )
}

/// A copy of a vector of indices.
fn copy_usizes(v: &Vec<usize>) -> (r: Vec<usize>)
    ensures
        r@ == v@,
{
    let mut r: Vec<usize> = Vec::new();
    let mut i: usize = 0;
    while i < v.len()
        invariant
            i <= v@.len(),
            r@ == v@.subrange(0, i as int),
        decreases v@.len() - i,
    {
        r.push(v[i]);
        proof {
            assert(r@ =~= v@.subrange(0, i + 1 as int));
        }
        i = i + 1;
    }
    proof {
        assert(r@ =~= v@);
    }
    r
}

proof fn lemma_entry_marked_idempotent(e: PathEntryView, p: Seq<char>, v: bool)
    ensures
        entry_marked(entry_marked(e, p, v), p, v) == entry_marked(e, p, v),
{
}

impl PathSyncManager {
    /// Reacts to a path appearing on disk: a tracked, absent path becomes
    /// existing again, in the index and in every owning target file.
    pub fn handle_path_created(&mut self, path: &str)
        requires
            old(self).wf(),
        ensures
            final(self).wf(),
            created_step(*old(self), *final(self), path@),
    {
        let ghost pre = *self;
        let ghost ms0 = mapping_views(self.path_mappings@);
        let found = find_mapping_index(&self.path_mappings, path);
        match found {
            Some(mi) => {
                if self.path_mappings[mi].exists {
                    proof {
                        assert forall|i: int|
                            0 <= i < ms0.len() && (#[trigger] ms0[i]).current_path
                                == path@ implies ms0[i].exists by {
                            if i != mi as int {
                                assert(ms0[i].current_path != ms0[mi as int].current_path);
                            }
                        }
                        assert(forall|i: int|
                            0 <= i < ms0.len() ==> ms0[i] == #[trigger] pre.path_mappings@[i]@);
                        lemma_unmatched_created_step(pre, path@);
                    }
                    return ;
                }
                let ghost m_old = self.path_mappings@[mi as int]@;
                let mut m = self.path_mappings.remove(mi);
                m.exists = true;
                self.path_mappings.insert(mi, m);
                proof {
                    let ms1 = mapping_views(self.path_mappings@);
                    assert(ms1.len() == ms0.len());
                    assert(forall|i: int|
                        0 <= i < ms0.len() && i != mi as int ==> ms1[i] == ms0[i]);
                    assert(ms1[mi as int] == PathMappingView { exists: true, ..m_old });
                }
                let owners = copy_usizes(&self.path_mappings[mi].target_files);
                proof {
                    assert(owners@ == m_old.target_files);
                    assert forall|k: int| 0 <= k < owners@.len() implies (#[trigger] owners@[k])
                        < self.target_files@.len() by {
                        assert(pre.path_mappings@[mi as int]@.target_files[k]
                            < pre.target_files@.len());
                    }
                }
                self.mark_owner_files(&owners, path, true);
                proof {
                    let ms1 = mapping_views(self.path_mappings@);
                    assert forall|i: int| 0 <= i < ms0.len() implies {
                        let m0 = #[trigger] ms0[i];
                        let m1 = ms1[i];
                        &&& m1.current_path == m0.current_path
                        &&& m1.original_path == m0.original_path
                        &&& m1.target_files == m0.target_files
                        &&& m1.exists == (if m0.current_path == path@ {
                            true
                        } else {
                            m0.exists
                        })
                    } by {
                        if i != mi as int {
                            assert(ms0[i].current_path != ms0[mi as int].current_path);
                        }
                    }
                    assert forall|t: int| 0 <= t < pre.target_files@.len() implies (
                    #[trigger] self.target_files@[t])@ == (if restored_owner(ms0, path@, t) {
                        file_marked(pre.target_files@[t]@, path@, true)
                    } else {
                        pre.target_files@[t]@
                    }) by {
                        if restored_owner(ms0, path@, t) {
                            let i = choose|i: int|
                                0 <= i < ms0.len() && (#[trigger] ms0[i]).current_path == path@
                                    && !ms0[i].exists && ms0[i].target_files.contains(t as usize);
                            if i != mi as int {
                                assert(ms0[i].current_path != ms0[mi as int].current_path);
                            }
                            assert(owners@.contains(t as usize));
                        } else {
                            if owners@.contains(t as usize) {
                                assert(restored_owner(ms0, path@, t)) by {
                                    assert(ms0[mi as int].current_path == path@);
                                    assert(!ms0[mi as int].exists);
                                    assert(ms0[mi as int].target_files == owners@);
                                }
                            }
                        }
                    }
                    lemma_wf_preserved(pre, *self);
                }
            },
            None => {
                proof {
                    assert(forall|i: int|
                        0 <= i < ms0.len() ==> ms0[i] == #[trigger] pre.path_mappings@[i]@);
                    lemma_unmatched_created_step(pre, path@);
                }
            },
        }
    }

    /// Reacts to a path vanishing from disk: the mapping keyed by it is
    /// kept as a tombstone marked absent, and every owning target file's
    /// entries for it are marked deleted.
    pub fn handle_path_removed(&mut self, path: &str)
        requires
            old(self).wf(),
        ensures
            final(self).wf(),
            removed_step(*old(self), *final(self), path@),
    {
        let ghost pre = *self;
        let ghost ms0 = mapping_views(self.path_mappings@);
        let found = find_mapping_index(&self.path_mappings, path);
        match found {
            Some(mi) => {
                let ghost m_old = self.path_mappings@[mi as int]@;
                let mut m = self.path_mappings.remove(mi);
                m.exists = false;
                self.path_mappings.insert(mi, m);
                proof {
                    let ms1 = mapping_views(self.path_mappings@);
                    assert(ms1.len() == ms0.len());
                    assert(forall|i: int|
                        0 <= i < ms0.len() && i != mi as int ==> ms1[i] == ms0[i]);
                    assert(ms1[mi as int] == PathMappingView { exists: false, ..m_old });
                }
                let owners = copy_usizes(&self.path_mappings[mi].target_files);
                proof {
                    assert(owners@ == m_old.target_files);
                    assert forall|k: int| 0 <= k < owners@.len() implies (#[trigger] owners@[k])
                        < self.target_files@.len() by {
                        assert(pre.path_mappings@[mi as int]@.target_files[k]
                            < pre.target_files@.len());
                    }
                }
                self.mark_owner_files(&owners, path, false);
                proof {
                    let ms1 = mapping_views(self.path_mappings@);
                    assert forall|i: int| 0 <= i < ms0.len() implies {
                        let m0 = #[trigger] ms0[i];
                        let m1 = ms1[i];
                        &&& m1.current_path == m0.current_path
                        &&& m1.original_path == m0.original_path
                        &&& m1.target_files == m0.target_files
                        &&& m1.exists == (if m0.current_path == path@ {
                            false
                        } else {
                            m0.exists
                        })
                    } by {
                        if i != mi as int {
                            assert(ms0[i].current_path != ms0[mi as int].current_path);
                        }
                    }
                    assert forall|t: int| 0 <= t < pre.target_files@.len() implies (
                    #[trigger] self.target_files@[t])@ == (if removed_owner(ms0, path@, t) {
                        file_marked(pre.target_files@[t]@, path@, false)
                    } else {
                        pre.target_files@[t]@
                    }) by {
                        if removed_owner(ms0, path@, t) {
                            let i = choose|i: int|
                                0 <= i < ms0.len() && (#[trigger] ms0[i]).current_path == path@
                                    && ms0[i].target_files.contains(t as usize);
                            if i != mi as int {
                                assert(ms0[i].current_path != ms0[mi as int].current_path);
                            }
                            assert(owners@.contains(t as usize));
                        } else {
                            if owners@.contains(t as usize) {
                                assert(removed_owner(ms0, path@, t)) by {
                                    assert(ms0[mi as int].current_path == path@);
                                    assert(ms0[mi as int].target_files == owners@);
                                }
                            }
                        }
                    }
                    lemma_wf_preserved(pre, *self);
                }
            },
            None => {
                proof {
                    assert(forall|i: int|
                        0 <= i < ms0.len() ==> ms0[i] == #[trigger] pre.path_mappings@[i]@);
                    lemma_unmatched_removed_step(pre, path@);
                }
            },
        }
    }

    /// Modification events carry no rename information this engine trusts,
    /// so they change nothing.
    pub fn handle_path_modified(&mut self, _path: &str)
        ensures
            *final(self) == *old(self),
    {
    }

    /// Marks every entry for `path` in the named owner files; other files
    /// are untouched.
    fn mark_owner_files(&mut self, owners: &Vec<usize>, path: &str, value: bool)
        requires
            forall|k: int|
                0 <= k < owners@.len()
                    ==> (#[trigger] owners@[k]) < old(self).target_files@.len(),
        ensures
            final(self).path_mappings == old(self).path_mappings,
            final(self).watch_paths == old(self).watch_paths,
            final(self).target_files@.len() == old(self).target_files@.len(),
            forall|t: int|
                0 <= t < old(self).target_files@.len()
                    ==> (#[trigger] final(self).target_files@[t])@
                    == (if owners@.contains(t as usize) {
                    file_marked(old(self).target_files@[t]@, path@, value)
                } else {
                    old(self).target_files@[t]@
                }),
    {
        let ghost orig = self.target_files@;
        let n_files = self.target_files.len();
        let mut k: usize = 0;
        while k < owners.len()
            invariant
                k <= owners@.len(),
                n_files == orig.len(),
                forall|kk: int| 0 <= kk < owners@.len() ==> (#[trigger] owners@[kk]) < orig.len(),
                self.path_mappings == old(self).path_mappings,
                self.watch_paths == old(self).watch_paths,
                orig == old(self).target_files@,
                self.target_files@.len() == orig.len(),
                forall|t: int|
                    0 <= t < orig.len() ==> (#[trigger] self.target_files@[t])@ == (
                    if owners@.subrange(0, k as int).contains(t as usize) {
                        file_marked(orig[t]@, path@, value)
                    } else {
                        orig[t]@
                    }),
            decreases owners@.len() - k,
        {
            let t = owners[k];
            let ghost seq_before = self.target_files@;
            let ghost tf_before = self.target_files@[t as int]@;
            proof {
                assert(forall|t2: int|
                    0 <= t2 < orig.len() ==> (#[trigger] seq_before[t2])@ == (
                    if owners@.subrange(0, k as int).contains(t2 as usize) {
                        file_marked(orig[t2]@, path@, value)
                    } else {
                        orig[t2]@
                    }));
            }
            let mut tf = self.target_files.remove(t);
            if value {
                let _ = tf.mark_path_restored(path);
            } else {
                let _ = tf.mark_path_deleted(path);
            }
            self.target_files.insert(t, tf);
            proof {
                assert(self.target_files@.len() == seq_before.len());
                assert(forall|tt: int|
                    0 <= tt < seq_before.len() && tt != t as int ==> self.target_files@[tt]
                        == seq_before[tt]);
                let tf_after = self.target_files@[t as int]@;
                assert(tf_after == file_marked(tf_before, path@, value)) by {
                    assert(tf_after.paths.len() == tf_before.paths.len());
                    assert(file_marked(tf_before, path@, value).paths.len()
                        == tf_before.paths.len());
                    assert forall|e: int| 0 <= e < tf_before.paths.len() implies tf_after.paths[e]
                        == file_marked(tf_before, path@, value).paths[e] by {
                        assert(file_marked(tf_before, path@, value).paths[e] == entry_marked(
                            tf_before.paths[e],
                            path@,
                            value,
                        ));
                    }
                    assert(tf_after.paths =~= file_marked(tf_before, path@, value).paths);
                }
                let pre_sub = owners@.subrange(0, k as int);
                let cur_sub = owners@.subrange(0, k + 1 as int);
                assert(cur_sub =~= pre_sub.push(owners@[k as int]));
                assert forall|t2: int| 0 <= t2 < orig.len() implies (
                #[trigger] self.target_files@[t2])@ == (if cur_sub.contains(t2 as usize) {
                    file_marked(orig[t2]@, path@, value)
                } else {
                    orig[t2]@
                }) by {
                    assert forall|v2: usize| #[trigger]
                        cur_sub.contains(v2) implies pre_sub.contains(v2) || v2
                        == owners@[k as int] by {
                        let idx = choose|idx: int| 0 <= idx < cur_sub.len() && cur_sub[idx] == v2;
                        if idx < k as int {
                            assert(pre_sub[idx] == v2);
                        }
                    }
                    assert(forall|v2: usize| #[trigger]
                        pre_sub.contains(v2) ==> cur_sub.contains(v2)) by {
                        assert forall|v2: usize| #[trigger]
                            pre_sub.contains(v2) implies cur_sub.contains(v2) by {
                            let idx = choose|idx: int|
                                0 <= idx < pre_sub.len() && pre_sub[idx] == v2;
                            assert(cur_sub[idx] == v2);
                        }
                    }
                    assert(cur_sub.contains(owners@[k as int])) by {
                        assert(cur_sub[k as int] == owners@[k as int]);
                    }
                    if t2 == t as int {
                        assert(cur_sub.contains(t2 as usize));
                        if pre_sub.contains(t2 as usize) {
                            assert(tf_before == file_marked(orig[t2]@, path@, value));
                            lemma_file_marked_idempotent(orig[t2]@, path@, value);
                        } else {
                            assert(tf_before == orig[t2]@);
                        }
                        assert(self.target_files@[t2]@ == file_marked(orig[t2]@, path@, value));
                    } else {
                        assert(0 <= t2 < seq_before.len());
                        assert(t2 != t as int);
                        assert(self.target_files@[t2] == seq_before[t2]);
                        assert(seq_before[t2]@ == (if pre_sub.contains(t2 as usize) {
                            file_marked(orig[t2]@, path@, value)
                        } else {
                            orig[t2]@
                        }));
                        assert(cur_sub.contains(t2 as usize) == pre_sub.contains(t2 as usize))
                            by {
                            if cur_sub.contains(t2 as usize) && !pre_sub.contains(t2 as usize) {
                                assert(t2 as usize == owners@[k as int]);
                                assert(owners@[k as int] == t);
                                assert((t2 as usize) as int == t2);
                                assert(t2 == t as int);
                            }
                        }
                    }
                }
            }
            k = k + 1;
        }
        proof {
            assert(owners@.subrange(0, owners@.len() as int) =~= owners@);
        }
    }
}

/// Well-formedness carries over to a manager whose mapping keys and owners
/// are unchanged and whose file count is the same.
proof fn lemma_wf_preserved(pre: PathSyncManager, post: PathSyncManager)
    requires
        pre.wf(),
        post.path_mappings@.len() == pre.path_mappings@.len(),
        forall|i: int|
            0 <= i < pre.path_mappings@.len() ==> (#[trigger] post.path_mappings@[i]@).current_path
                == pre.path_mappings@[i]@.current_path && post.path_mappings@[i]@.target_files
                == pre.path_mappings@[i]@.target_files,
        post.target_files@.len() == pre.target_files@.len(),
    ensures
        post.wf(),
{
    let ms0 = mapping_views(pre.path_mappings@);
    let ms1 = mapping_views(post.path_mappings@);
    assert forall|i: int, j: int| 0 <= i < j < ms1.len() implies (
    #[trigger] ms1[i]).current_path != (#[trigger] ms1[j]).current_path by {
        assert(ms0[i].current_path != ms0[j].current_path);
    }
}

proof fn lemma_file_marked_idempotent(tf: TargetFileView, p: Seq<char>, v: bool)
    ensures
        file_marked(file_marked(tf, p, v), p, v) == file_marked(tf, p, v),
{
    let once = file_marked(tf, p, v);
    let twice = file_marked(once, p, v);
    assert forall|e: int| 0 <= e < tf.paths.len() implies twice.paths[e] == once.paths[e] by {
        assert(once.paths[e] == entry_marked(tf.paths[e], p, v));
        assert(twice.paths[e] == entry_marked(once.paths[e], p, v));
    }
    assert(twice.paths =~= once.paths);
}

/// Without a tracked mapping for the path, a Create notification changes
/// nothing.
proof fn lemma_unmatched_created_step(m: PathSyncManager, path: Seq<char>)
    requires
        forall|i: int|
            0 <= i < m.path_mappings@.len() ==> ((#[trigger] m.path_mappings@[i]@).current_path
                != path || m.path_mappings@[i]@.exists),
    ensures
        created_step(m, m, path),
{
    let ms = mapping_views(m.path_mappings@);
    assert(forall|i: int| 0 <= i < ms.len() ==> ms[i] == m.path_mappings@[i]@);
    assert forall|t: int| 0 <= t < m.target_files@.len() implies (
    #[trigger] m.target_files@[t])@ == (if restored_owner(ms, path, t) {
        file_marked(m.target_files@[t]@, path, true)
    } else {
        m.target_files@[t]@
    }) by {
        if restored_owner(ms, path, t) {
            let i = choose|i: int|
                0 <= i < ms.len() && (#[trigger] ms[i]).current_path == path && !ms[i].exists
                    && ms[i].target_files.contains(t as usize);
        }
    }
    assert forall|i: int| 0 <= i < ms.len() implies {
        let m0 = #[trigger] ms[i];
        m0.exists == (if m0.current_path == path {
            true
        } else {
            m0.exists
        })
    } by {}
}

/// Without a tracked mapping for the path, a Remove notification changes
/// nothing.
proof fn lemma_unmatched_removed_step(m: PathSyncManager, path: Seq<char>)
    requires
        forall|i: int|
            0 <= i < m.path_mappings@.len() ==> (#[trigger] m.path_mappings@[i]@).current_path
                != path,
    ensures
        removed_step(m, m, path),
{
    let ms = mapping_views(m.path_mappings@);
    assert(forall|i: int| 0 <= i < ms.len() ==> ms[i] == m.path_mappings@[i]@);
    assert forall|t: int| 0 <= t < m.target_files@.len() implies (
    #[trigger] m.target_files@[t])@ == (if removed_owner(ms, path, t) {
        file_marked(m.target_files@[t]@, path, false)
    } else {
        m.target_files@[t]@
    }) by {
        if removed_owner(ms, path, t) {
            let i = choose|i: int|
                0 <= i < ms.len() && (#[trigger] ms[i]).current_path == path && ms[
                    i
                ].target_files.contains(t as usize);
        }
    }
}

/// The manager after a whole Create notification: one `created_step` per
/// path, in arrival order.
pub open spec fn created_chain(
    pre: PathSyncManager,
    post: PathSyncManager,
    paths: Seq<Seq<char>>,
) -> bool
    decreases paths.len(),
{
    if paths.len() == 0 {
        post == pre
    } else {
        exists|mid: PathSyncManager|
            #[trigger] created_step(pre, mid, paths[0]) && created_chain(
                mid,
                post,
                paths.drop_first(),
            )
    }
}

/// The manager after a whole Remove notification: one `removed_step` per
/// path, in arrival order.
pub open spec fn removed_chain(
    pre: PathSyncManager,
    post: PathSyncManager,
    paths: Seq<Seq<char>>,
) -> bool
    decreases paths.len(),
{
    if paths.len() == 0 {
        post == pre
    } else {
        exists|mid: PathSyncManager|
            #[trigger] removed_step(pre, mid, paths[0]) && removed_chain(
                mid,
                post,
                paths.drop_first(),
            )
    }
}

/// A chain grows at its end by one more step.
proof fn lemma_created_chain_snoc(
    pre: PathSyncManager,
    midst: PathSyncManager,
    post: PathSyncManager,
    paths: Seq<Seq<char>>,
    p: Seq<char>,
)
    requires
        created_chain(pre, midst, paths),
        created_step(midst, post, p),
    ensures
        created_chain(pre, post, paths.push(p)),
    decreases paths.len(),
{
    assert(paths.push(p)[0] == if paths.len() == 0 {
        p
    } else {
        paths[0]
    });
    if paths.len() > 0 {
        assert(paths.push(p).drop_first() =~= paths.drop_first().push(p));
    }
    if paths.len() == 0 {
        assert(midst == pre);
        assert(paths.push(p).drop_first() =~= Seq::<Seq<char>>::empty());
        assert(created_step(pre, post, p) && created_chain(
            post,
            post,
            paths.push(p).drop_first(),
        ));
    } else {
        let mid = choose|mid: PathSyncManager|
            #[trigger] created_step(pre, mid, paths[0]) && created_chain(
                mid,
                midst,
                paths.drop_first(),
            );
        lemma_created_chain_snoc(mid, midst, post, paths.drop_first(), p);
        assert(created_step(pre, mid, paths.push(p)[0]) && created_chain(
            mid,
            post,
            paths.push(p).drop_first(),
        ));
    }
}

/// A chain grows at its end by one more step.
proof fn lemma_removed_chain_snoc(
    pre: PathSyncManager,
    midst: PathSyncManager,
    post: PathSyncManager,
    paths: Seq<Seq<char>>,
    p: Seq<char>,
)
    requires
        removed_chain(pre, midst, paths),
        removed_step(midst, post, p),
    ensures
        removed_chain(pre, post, paths.push(p)),
    decreases paths.len(),
{
    assert(paths.push(p)[0] == if paths.len() == 0 {
        p
    } else {
        paths[0]
    });
    if paths.len() > 0 {
        assert(paths.push(p).drop_first() =~= paths.drop_first().push(p));
    }
    if paths.len() == 0 {
        assert(midst == pre);
        assert(paths.push(p).drop_first() =~= Seq::<Seq<char>>::empty());
        assert(removed_step(pre, post, p) && removed_chain(
            post,
            post,
            paths.push(p).drop_first(),
        ));
    } else {
        let mid = choose|mid: PathSyncManager|
            #[trigger] removed_step(pre, mid, paths[0]) && removed_chain(
                mid,
                midst,
                paths.drop_first(),
            );
        lemma_removed_chain_snoc(mid, midst, post, paths.drop_first(), p);
        assert(removed_step(pre, mid, paths.push(p)[0]) && removed_chain(
            mid,
            post,
            paths.push(p).drop_first(),
        ));
    }
}

impl PathSyncManager {
    /// Feeds one filesystem notification into the index: Create restores,
    /// Remove leaves a tombstone, anything else changes nothing.
    pub fn handle_event(&mut self, event: &FsEvent)
        requires
            old(self).wf(),
        ensures
            final(self).wf(),
            final(self).watch_paths == old(self).watch_paths,
            !(event.kind is Create || event.kind is Remove) ==> *final(self) == *old(self),
            event.paths@.len() == 0 ==> *final(self) == *old(self),
            event.kind is Create ==> created_chain(
                *old(self),
                *final(self),
                event.paths.deep_view(),
            ),
            event.kind is Remove ==> removed_chain(
                *old(self),
                *final(self),
                event.paths.deep_view(),
            ),
            (event.kind is Create && event.paths@.len() == 1) ==> created_step(
                *old(self),
                *final(self),
                event.paths@[0]@,
            ),
            (event.kind is Remove && event.paths@.len() == 1) ==> removed_step(
                *old(self),
                *final(self),
                event.paths@[0]@,
            ),
    {
        let ghost pre = *old(self);
        match event.kind {
            FsEventKind::Create => {
                let ghost dv = event.paths.deep_view();
                let mut i: usize = 0;
                proof {
                    assert(dv.subrange(0, 0) =~= Seq::<Seq<char>>::empty());
                }
                while i < event.paths.len()
                    invariant
                        dv == event.paths.deep_view(),
                        dv.len() == event.paths@.len(),
                        i <= event.paths@.len(),
                        self.wf(),
                        self.watch_paths == pre.watch_paths,
                        i == 0 ==> *self == pre,
                        created_chain(pre, *self, dv.subrange(0, i as int)),
                        (event.paths@.len() == 1 && i == 1) ==> created_step(
                            pre,
                            *self,
                            event.paths@[0]@,
                        ),
                    decreases event.paths@.len() - i,
                {
                    let ghost cur = *self;
                    self.handle_path_created(event.paths[i].as_str());
                    proof {
                        assert(dv[i as int] == event.paths@[i as int]@);
                        lemma_created_chain_snoc(
                            pre,
                            cur,
                            *self,
                            dv.subrange(0, i as int),
                            dv[i as int],
                        );
                        assert(dv.subrange(0, i + 1 as int) =~= dv.subrange(0, i as int).push(
                            dv[i as int],
                        ));
                    }
                    i = i + 1;
                }
                proof {
                    assert(dv.subrange(0, dv.len() as int) =~= dv);
                }
            },
            FsEventKind::Remove => {
                let ghost dv = event.paths.deep_view();
                let mut i: usize = 0;
                proof {
                    assert(dv.subrange(0, 0) =~= Seq::<Seq<char>>::empty());
                }
                while i < event.paths.len()
                    invariant
                        dv == event.paths.deep_view(),
                        dv.len() == event.paths@.len(),
                        i <= event.paths@.len(),
                        self.wf(),
                        self.watch_paths == pre.watch_paths,
                        i == 0 ==> *self == pre,
                        removed_chain(pre, *self, dv.subrange(0, i as int)),
                        (event.paths@.len() == 1 && i == 1) ==> removed_step(
                            pre,
                            *self,
                            event.paths@[0]@,
                        ),
                    decreases event.paths@.len() - i,
                {
                    let ghost cur = *self;
                    self.handle_path_removed(event.paths[i].as_str());
                    proof {
                        assert(dv[i as int] == event.paths@[i as int]@);
                        lemma_removed_chain_snoc(
                            pre,
                            cur,
                            *self,
                            dv.subrange(0, i as int),
                            dv[i as int],
                        );
                        assert(dv.subrange(0, i + 1 as int) =~= dv.subrange(0, i as int).push(
                            dv[i as int],
                        ));
                    }
                    i = i + 1;
                }
                proof {
                    assert(dv.subrange(0, dv.len() as int) =~= dv);
                }
            },
            FsEventKind::Modify => {
                let mut i: usize = 0;
                while i < event.paths.len()
                    invariant
                        *self == pre,
                        i <= event.paths@.len(),
                    decreases event.paths@.len() - i,
                {
                    self.handle_path_modified(event.paths[i].as_str());
                    i = i + 1;
                }
            },
            FsEventKind::Access => {},
            FsEventKind::Other => {},
        }
    }
}

/// True when the key is the renamed path itself or a descendant of it.
pub open spec fn affected_key(key: Seq<char>, old: Seq<char>) -> bool {
    is_path_prefix(old, key)
}

/// The key after a rename: the new path itself for an exact match, else the
/// new path followed by the key's remainder beyond the old prefix.
pub open spec fn rename_path(key: Seq<char>, old: Seq<char>, new: Seq<char>) -> Seq<char> {
    if key == old {
        new
    } else {
        new + key.subrange(old.len() as int, key.len() as int)
    }
}

/// The rename moved this mapping: same origin and owners, re-keyed.
pub open spec fn renamed_into(
    m0: PathMappingView,
    m1: PathMappingView,
    old: Seq<char>,
    new: Seq<char>,
) -> bool {
    &&& m1.current_path == rename_path(m0.current_path, old, new)
    &&& m1.original_path == m0.original_path
    &&& m1.target_files == m0.target_files
}

/// Distinct affected keys stay distinct after renaming.
pub proof fn lemma_rename_injective(k1: Seq<char>, k2: Seq<char>, old: Seq<char>, new: Seq<char>)
    requires
        affected_key(k1, old),
        affected_key(k2, old),
        k1 != k2,
    ensures
        rename_path(k1, old, new) != rename_path(k2, old, new),
{
    if k1 == old {
        assert(starts_with_seq(k2, old + seq!['/']));
        assert(k2.len() >= old.len() + 1);
        assert(rename_path(k2, old, new).len() == new.len() + k2.len() - old.len());
    } else if k2 == old {
        assert(starts_with_seq(k1, old + seq!['/']));
        assert(k1.len() >= old.len() + 1);
        assert(rename_path(k1, old, new).len() == new.len() + k1.len() - old.len());
    } else {
        let s1 = k1.subrange(old.len() as int, k1.len() as int);
        let s2 = k2.subrange(old.len() as int, k2.len() as int);
        if rename_path(k1, old, new) == rename_path(k2, old, new) {
            assert(s1 =~= (new + s1).subrange(new.len() as int, (new + s1).len() as int));
            assert(s2 =~= (new + s2).subrange(new.len() as int, (new + s2).len() as int));
            assert(s1 == s2);
            assert(starts_with_seq(k1, old + seq!['/']));
            assert(starts_with_seq(k2, old + seq!['/']));
            assert forall|x: int| 0 <= x < old.len() implies k1[x] == old[x] by {
                assert(k1.subrange(0, old.len() as int + 1)[x] == (old + seq!['/'])[x]);
            }
            assert forall|x: int| 0 <= x < old.len() implies k2[x] == old[x] by {
                assert(k2.subrange(0, old.len() as int + 1)[x] == (old + seq!['/'])[x]);
            }
            assert(k1 =~= old + s1);
            assert(k2 =~= old + s2);
        }
    }
}

/// Builds the renamed key.
fn rename_key(key: &str, old_path: &str, new_path: &str) -> (r: String)
    requires
        affected_key(key@, old_path@),
    ensures
        r@ == rename_path(key@, old_path@, new_path@),
{
    if str_eq(key, old_path) {
        String::from_str(new_path)
    } else {
        proof {
            assert(starts_with_seq(key@, old_path@ + seq!['/']));
            assert(key@.len() >= old_path@.len() + 1);
        }
        let kv = to_chars(key);
        let ov = to_chars(old_path);
        let mut nv = to_chars(new_path);
        let mut tail = copy_range(&kv, ov.len(), kv.len());
        nv.append(&mut tail);
        proof {
            assert(nv@ =~= rename_path(key@, old_path@, new_path@));
        }
        from_chars(&nv)
    }
}

/// A copy of the mapping with the same view.
fn clone_mapping(m: &PathMapping) -> (r: PathMapping)
    ensures
        r@ == m@,
{
    PathMapping {
        original_path: m.original_path.clone(),
        current_path: m.current_path.clone(),
        exists: m.exists,
        target_files: copy_usizes(&m.target_files),
    }
}

/// One file rewrite owed after a rename: which file, and which exact value
/// must become which.
#[derive(Clone, Debug)]
pub struct PathRewrite {
    pub file_location: String,
    pub old_path: String,
    pub new_path: String,
}

/// The mathematical shape of a planned rewrite.
pub struct PathRewriteView {
    pub file_location: Seq<char>,
    pub old_path: Seq<char>,
    pub new_path: Seq<char>,
}

impl View for PathRewrite {
    type V = PathRewriteView;

    open spec fn view(&self) -> PathRewriteView {
        PathRewriteView {
            file_location: self.file_location@,
            old_path: self.old_path@,
            new_path: self.new_path@,
        }
    }
}

/// True when some mapping with `flags` set carries the key.
fn key_in_renamed(renamed: &Vec<PathMapping>, flags: &Vec<bool>, key: &str) -> (r: bool)
    requires
        flags@.len() == renamed@.len(),
    ensures
        r == exists|j: int|
            0 <= j < renamed@.len() && flags@[j] && (#[trigger] renamed@[j]@).current_path
                == key@,
{
    let mut j: usize = 0;
    while j < renamed.len()
        invariant
            j <= renamed@.len(),
            flags@.len() == renamed@.len(),
            forall|jj: int|
                0 <= jj < j ==> !(flags@[jj] && (#[trigger] renamed@[jj]@).current_path == key@),
        decreases renamed@.len() - j,
    {
        if flags[j] && str_eq(renamed[j].current_path.as_str(), key) {
            proof {
                assert(flags@[j as int] && (renamed@[j as int]@).current_path == key@);
            }
            return true;
        }
        j = j + 1;
    }
    false
}

/// The views of a sequence of planned rewrites.
pub open spec fn rewrite_views(s: Seq<PathRewrite>) -> Seq<PathRewriteView> {
    Seq::new(s.len(), |i: int| s[i]@)
}

/// How one rename changes one entry: a path equal to the renamed key is
/// re-pointed and remembers where it was; any other entry is unchanged.
/// The existence flag of a re-pointed entry is a disk probe and is left
/// open.
pub open spec fn entry_repoints(
    e0: PathEntryView,
    e1: PathEntryView,
    okey: Seq<char>,
    nkey: Seq<char>,
) -> bool {
    if e0.path == okey {
        e1.path == nkey && e1.last_known_path == Some(e0.path)
    } else {
        e1 == e0
    }
}

/// How one rename changes one file: location, format and entry count kept,
/// every entry re-pointed as `entry_repoints` says.
pub open spec fn file_repoints(
    f0: TargetFileView,
    f1: TargetFileView,
    okey: Seq<char>,
    nkey: Seq<char>,
) -> bool {
    &&& f1.path == f0.path
    &&& f1.format == f0.format
    &&& f1.paths.len() == f0.paths.len()
    &&& forall|e: int|
        0 <= e < f0.paths.len() ==> entry_repoints(f0.paths[e], #[trigger] f1.paths[e], okey, nkey)
}

/// Re-pointing twice for the same rename is no more than re-pointing once.
proof fn lemma_file_repoints_trans(
    f0: TargetFileView,
    f1: TargetFileView,
    f2: TargetFileView,
    okey: Seq<char>,
    nkey: Seq<char>,
)
    requires
        file_repoints(f0, f1, okey, nkey),
        file_repoints(f1, f2, okey, nkey),
    ensures
        file_repoints(f0, f2, okey, nkey),
{
    assert forall|e: int|
        0 <= e < f0.paths.len() implies entry_repoints(
        f0.paths[e],
        #[trigger] f2.paths[e],
        okey,
        nkey,
    ) by {
        assert(entry_repoints(f0.paths[e], f1.paths[e], okey, nkey));
        assert(entry_repoints(f1.paths[e], f2.paths[e], okey, nkey));
    }
}

/// An entry's path and rename history after the renames of the first `k`
/// mappings owned by file `t` have been applied, in mapping order.
pub open spec fn synced_entry(
    t: int,
    p0: Seq<char>,
    l0: Option<Seq<char>>,
    ms0: Seq<PathMappingView>,
    old: Seq<char>,
    new: Seq<char>,
    k: int,
) -> (Seq<char>, Option<Seq<char>>)
    decreases k,
{
    if k <= 0 {
        (p0, l0)
    } else {
        let prev = synced_entry(t, p0, l0, ms0, old, new, k - 1);
        if affected_key(ms0[k - 1].current_path, old) && ms0[k - 1].target_files.contains(
            t as usize,
        ) && prev.0 == ms0[k - 1].current_path {
            (rename_path(ms0[k - 1].current_path, old, new), Some(prev.0))
        } else {
            prev
        }
    }
}

/// A file after the renames of the first `k` mappings: location, format
/// and entry count kept; every entry's path and history follow the fold.
/// Existence flags are disk probes and are left open.
pub open spec fn file_synced(
    f0: TargetFileView,
    f1: TargetFileView,
    t: int,
    ms0: Seq<PathMappingView>,
    old: Seq<char>,
    new: Seq<char>,
    k: int,
) -> bool {
    &&& f1.path == f0.path
    &&& f1.format == f0.format
    &&& f1.paths.len() == f0.paths.len()
    &&& forall|e: int|
        0 <= e < f0.paths.len() ==> {
            let pe = synced_entry(t, f0.paths[e].path, f0.paths[e].last_known_path, ms0, old, new, k);
            (#[trigger] f1.paths[e]).path == pe.0 && f1.paths[e].last_known_path == pe.1
        }
}

/// True when one of the first `hi` mappings is affected by the rename and
/// names file `t` among its owners.
pub open spec fn owned_by_affected(
    ms0: Seq<PathMappingView>,
    old: Seq<char>,
    t: int,
    hi: int,
) -> bool {
    exists|i: int|
        0 <= i < hi && affected_key((#[trigger] ms0[i]).current_path, old) && ms0[
            i
        ].target_files.contains(t as usize)
}

/// One owed file rewrite stands in the plan for every owner of every
/// affected mapping among the first `hi`.
pub open spec fn plan_covers(
    plan: Seq<PathRewriteView>,
    ms0: Seq<PathMappingView>,
    tfs: Seq<TargetFile>,
    old: Seq<char>,
    new: Seq<char>,
    hi: int,
) -> bool {
    forall|i: int, ko: int|
        0 <= i < hi && affected_key(ms0[i].current_path, old) && 0 <= ko < ms0[
            i
        ].target_files.len() && (#[trigger] ms0[i].target_files[ko]) < tfs.len() ==> exists|
            k: int,
        |
            0 <= k < plan.len() && (#[trigger] plan[k]).file_location == tfs[ms0[
                i
            ].target_files[ko] as int]@.path && plan[k].old_path == ms0[i].current_path && plan[
                k
            ].new_path == rename_path(ms0[i].current_path, old, new)
}

/// Coverage survives appending to the plan.
proof fn lemma_plan_covers_append(
    plan: Seq<PathRewriteView>,
    plan2: Seq<PathRewriteView>,
    ms0: Seq<PathMappingView>,
    tfs: Seq<TargetFile>,
    old: Seq<char>,
    new: Seq<char>,
    hi: int,
)
    requires
        plan_covers(plan, ms0, tfs, old, new, hi),
        plan2.len() >= plan.len(),
        forall|k: int| 0 <= k < plan.len() ==> #[trigger] plan2[k] == plan[k],
    ensures
        plan_covers(plan2, ms0, tfs, old, new, hi),
{
    assert forall|i: int, ko: int|
        0 <= i < hi && affected_key(ms0[i].current_path, old) && 0 <= ko < ms0[
            i
        ].target_files.len() && (#[trigger] ms0[i].target_files[ko]) < tfs.len() implies exists|
        k: int,
    |
        0 <= k < plan2.len() && (#[trigger] plan2[k]).file_location == tfs[ms0[
            i
        ].target_files[ko] as int]@.path && plan2[k].old_path == ms0[i].current_path && plan2[
            k
        ].new_path == rename_path(ms0[i].current_path, old, new) by {
        let k = choose|k: int|
            0 <= k < plan.len() && (#[trigger] plan[k]).file_location == tfs[ms0[
                i
            ].target_files[ko] as int]@.path && plan[k].old_path == ms0[i].current_path && plan[
                k
            ].new_path == rename_path(ms0[i].current_path, old, new);
        assert(plan2[k] == plan[k]);
    }
}

/// Coverage reaches one mapping further when that mapping is unaffected.
proof fn lemma_plan_covers_step_unaffected(
    plan: Seq<PathRewriteView>,
    ms0: Seq<PathMappingView>,
    tfs: Seq<TargetFile>,
    old: Seq<char>,
    new: Seq<char>,
    hi: int,
)
    requires
        plan_covers(plan, ms0, tfs, old, new, hi),
        0 <= hi < ms0.len(),
        !affected_key(ms0[hi].current_path, old),
    ensures
        plan_covers(plan, ms0, tfs, old, new, hi + 1),
{
    assert forall|i: int, ko: int|
        0 <= i < hi + 1 && affected_key(ms0[i].current_path, old) && 0 <= ko < ms0[
            i
        ].target_files.len() && (#[trigger] ms0[i].target_files[ko]) < tfs.len() implies exists|
        k: int,
    |
        0 <= k < plan.len() && (#[trigger] plan[k]).file_location == tfs[ms0[
            i
        ].target_files[ko] as int]@.path && plan[k].old_path == ms0[i].current_path && plan[
            k
        ].new_path == rename_path(ms0[i].current_path, old, new) by {
        assert(i < hi);
    }
}


impl PathSyncManager {
    /// Updates the entries of each named owner file for the rename and
    /// returns one owed file rewrite per owner, in owner order.
    fn rewrite_owned_files(
        &mut self,
        owners: &Vec<usize>,
        old_key: &String,
        new_key: &String,
    ) -> (adds: Vec<PathRewrite>)
        requires
            forall|ko: int|
                0 <= ko < owners@.len()
                    ==> (#[trigger] owners@[ko]) < old(self).target_files@.len(),
        ensures
            final(self).path_mappings == old(self).path_mappings,
            final(self).watch_paths == old(self).watch_paths,
            final(self).target_files@.len() == old(self).target_files@.len(),
            forall|t: int|
                0 <= t < old(self).target_files@.len() ==> {
                    let f0 = (#[trigger] old(self).target_files@[t])@;
                    let f1 = (#[trigger] final(self).target_files@[t])@;
                    f1.path == f0.path && f1.format == f0.format && f1.paths.len()
                        == f0.paths.len()
                },
            forall|t: int|
                0 <= t < old(self).target_files@.len() ==> (if owners@.contains(t as usize) {
                    file_repoints(
                        (#[trigger] old(self).target_files@[t])@,
                        (#[trigger] final(self).target_files@[t])@,
                        old_key@,
                        new_key@,
                    )
                } else {
                    final(self).target_files@[t] == old(self).target_files@[t]
                }),
            adds@.len() == owners@.len(),
            forall|ko: int|
                0 <= ko < owners@.len() ==> {
                    let a = (#[trigger] adds@[ko])@;
                    &&& a.file_location == old(self).target_files@[owners@[ko] as int]@.path
                    &&& a.old_path == old_key@
                    &&& a.new_path == new_key@
                },
    {
        let ghost pre = *old(self);
        let mut adds: Vec<PathRewrite> = Vec::new();
        let n_files = self.target_files.len();
        let mut ko: usize = 0;
        while ko < owners.len()
            invariant
                ko <= owners@.len(),
                n_files == pre.target_files@.len(),
                forall|kk: int|
                    0 <= kk < owners@.len() ==> (#[trigger] owners@[kk])
                        < pre.target_files@.len(),
                self.path_mappings == pre.path_mappings,
                self.watch_paths == pre.watch_paths,
                self.target_files@.len() == pre.target_files@.len(),
                forall|t: int|
                    0 <= t < pre.target_files@.len() ==> {
                        let f0 = (#[trigger] pre.target_files@[t])@;
                        let f1 = (#[trigger] self.target_files@[t])@;
                        f1.path == f0.path && f1.format == f0.format && f1.paths.len()
                            == f0.paths.len()
                    },
                forall|t: int|
                    0 <= t < pre.target_files@.len() ==> (if owners@.subrange(
                        0,
                        ko as int,
                    ).contains(t as usize) {
                        file_repoints(
                            (#[trigger] pre.target_files@[t])@,
                            (#[trigger] self.target_files@[t])@,
                            old_key@,
                            new_key@,
                        )
                    } else {
                        self.target_files@[t] == pre.target_files@[t]
                    }),
                adds@.len() == ko,
                forall|k2: int|
                    0 <= k2 < ko ==> {
                        let a = (#[trigger] adds@[k2])@;
                        &&& a.file_location == pre.target_files@[owners@[k2] as int]@.path
                        &&& a.old_path == old_key@
                        &&& a.new_path == new_key@
                    },
            decreases owners@.len() - ko,
        {
            let t = owners[ko];
            adds.push(
                PathRewrite {
                    file_location: self.target_files[t].path.clone(),
                    old_path: old_key.clone(),
                    new_path: new_key.clone(),
                },
            );
            let ghost seq_before = self.target_files@;
            let ghost tf_before = self.target_files@[t as int]@;
            proof {
                assert(forall|t2: int|
                    0 <= t2 < pre.target_files@.len() ==> (if owners@.subrange(
                        0,
                        ko as int,
                    ).contains(t2 as usize) {
                        file_repoints(pre.target_files@[t2]@, (#[trigger] seq_before[t2])@, old_key@, new_key@)
                    } else {
                        seq_before[t2] == pre.target_files@[t2]
                    }));
            }
            let mut tf = self.target_files.remove(t);
            tf.update_path(old_key.as_str(), new_key.as_str());
            self.target_files.insert(t, tf);
            proof {
                assert(self.target_files@.len() == seq_before.len());
                assert(forall|tt: int|
                    0 <= tt < seq_before.len() && tt != t as int ==> self.target_files@[tt]
                        == seq_before[tt]);
                let tf_after = self.target_files@[t as int]@;
                assert(file_repoints(tf_before, tf_after, old_key@, new_key@)) by {
                    assert forall|e: int|
                        0 <= e < tf_before.paths.len() implies entry_repoints(
                        tf_before.paths[e],
                        #[trigger] tf_after.paths[e],
                        old_key@,
                        new_key@,
                    ) by {}
                }
                let pre_sub = owners@.subrange(0, ko as int);
                let cur_sub = owners@.subrange(0, ko + 1 as int);
                assert(cur_sub =~= pre_sub.push(owners@[ko as int]));
                assert forall|t2: int| 0 <= t2 < pre.target_files@.len() implies (
                if cur_sub.contains(t2 as usize) {
                    file_repoints(
                        (#[trigger] pre.target_files@[t2])@,
                        (#[trigger] self.target_files@[t2])@,
                        old_key@,
                        new_key@,
                    )
                } else {
                    self.target_files@[t2] == pre.target_files@[t2]
                }) by {
                    assert forall|v2: usize| #[trigger]
                        cur_sub.contains(v2) implies pre_sub.contains(v2) || v2
                        == owners@[ko as int] by {
                        let idx = choose|idx: int| 0 <= idx < cur_sub.len() && cur_sub[idx] == v2;
                        if idx < ko as int {
                            assert(pre_sub[idx] == v2);
                        }
                    }
                    assert(forall|v2: usize| #[trigger]
                        pre_sub.contains(v2) ==> cur_sub.contains(v2)) by {
                        assert forall|v2: usize| #[trigger]
                            pre_sub.contains(v2) implies cur_sub.contains(v2) by {
                            let idx = choose|idx: int|
                                0 <= idx < pre_sub.len() && pre_sub[idx] == v2;
                            assert(cur_sub[idx] == v2);
                        }
                    }
                    assert(cur_sub.contains(owners@[ko as int])) by {
                        assert(cur_sub[ko as int] == owners@[ko as int]);
                    }
                    if t2 == t as int {
                        assert(cur_sub.contains(t2 as usize));
                        if pre_sub.contains(t2 as usize) {
                            assert(file_repoints(
                                pre.target_files@[t2]@,
                                tf_before,
                                old_key@,
                                new_key@,
                            ));
                            lemma_file_repoints_trans(
                                pre.target_files@[t2]@,
                                tf_before,
                                self.target_files@[t2]@,
                                old_key@,
                                new_key@,
                            );
                        } else {
                            assert(tf_before == pre.target_files@[t2]@);
                        }
                    } else {
                        assert(self.target_files@[t2] == seq_before[t2]);
                        assert(cur_sub.contains(t2 as usize) == pre_sub.contains(t2 as usize))
                            by {
                            if cur_sub.contains(t2 as usize) && !pre_sub.contains(t2 as usize) {
                                assert(t2 as usize == owners@[ko as int]);
                                assert(owners@[ko as int] == t);
                                assert((t2 as usize) as int == t2);
                                assert(t2 == t as int);
                            }
                        }
                    }
                }
            }
            ko = ko + 1;
        }
        proof {
            assert(owners@.subrange(0, owners@.len() as int) =~= owners@);
        }
        adds
    }

    /// Rewrites the entries of every owning target file for one rename
    /// pass, and returns, for each mapping in order: its renamed form (or
    /// an unchanged copy), whether it was affected, and the file rewrites
    /// the caller owes to disk.
    #[verifier::rlimit(100)]
    fn apply_renames(&mut self, old_path: &str, new_path: &str) -> (r: (
        Vec<PathMapping>,
        Vec<bool>,
        Vec<PathRewrite>,
    ))
        requires
            old(self).wf(),
        ensures
            ({
                let ms0 = mapping_views(old(self).path_mappings@);
                let renamed = r.0;
                let flags = r.1;
                let plan = r.2;
                &&& final(self).path_mappings == old(self).path_mappings
                &&& final(self).watch_paths == old(self).watch_paths
                &&& final(self).target_files@.len() == old(self).target_files@.len()
                &&& forall|t: int|
                    0 <= t < old(self).target_files@.len() ==> {
                        let f0 = (#[trigger] old(self).target_files@[t])@;
                        let f1 = (#[trigger] final(self).target_files@[t])@;
                        f1.path == f0.path && f1.format == f0.format && f1.paths.len()
                            == f0.paths.len()
                    }
                &&& flags@.len() == ms0.len()
                &&& renamed@.len() == ms0.len()
                &&& forall|j: int|
                    0 <= j < ms0.len() ==> flags@[j] == affected_key(
                        (#[trigger] ms0[j]).current_path,
                        old_path@,
                    )
                &&& forall|j: int|
                    0 <= j < ms0.len() && flags@[j] ==> renamed_into(
                        ms0[j],
                        (#[trigger] renamed@[j])@,
                        old_path@,
                        new_path@,
                    )
                &&& forall|j: int|
                    0 <= j < ms0.len() && !flags@[j] ==> (#[trigger] renamed@[j])@ == ms0[j]
                &&& forall|k: int|
                    0 <= k < plan@.len() ==> plan_entry_ok(
                        (#[trigger] plan@[k])@,
                        ms0,
                        old(self).target_files@,
                        old_path@,
                        new_path@,
                    )
                &&& plan_covers(
                    rewrite_views(plan@),
                    ms0,
                    old(self).target_files@,
                    old_path@,
                    new_path@,
                    ms0.len() as int,
                )
                &&& forall|t: int|
                    0 <= t < old(self).target_files@.len() ==> file_synced(
                        (#[trigger] old(self).target_files@[t])@,
                        (#[trigger] final(self).target_files@[t])@,
                        t,
                        ms0,
                        old_path@,
                        new_path@,
                        ms0.len() as int,
                    )
                &&& forall|t: int|
                    0 <= t < old(self).target_files@.len() && !owned_by_affected(
                        ms0,
                        old_path@,
                        t,
                        ms0.len() as int,
                    ) ==> #[trigger] final(self).target_files@[t] == old(self).target_files@[t]
                &&& (exists|j: int|
                    0 <= j < ms0.len() && affected_key((#[trigger] ms0[j]).current_path, old_path@)
                        && ms0[j].target_files.len() > 0) ==> plan@.len() > 0
            }),
    {
        let ghost pre = *old(self);
        let ghost ms0 = mapping_views(pre.path_mappings@);
        let n = self.path_mappings.len();
        let mut plan: Vec<PathRewrite> = Vec::new();
        let mut renamed: Vec<PathMapping> = Vec::new();
        let mut flags: Vec<bool> = Vec::new();
        let mut i: usize = 0;
        proof {
            assert forall|t: int| 0 <= t < pre.target_files@.len() implies file_synced(
                (#[trigger] pre.target_files@[t])@,
                (#[trigger] self.target_files@[t])@,
                t,
                ms0,
                old_path@,
                new_path@,
                0,
            ) by {
                let f0 = pre.target_files@[t]@;
                assert forall|e: int| 0 <= e < f0.paths.len() implies {
                    let pe = synced_entry(
                        t,
                        f0.paths[e].path,
                        f0.paths[e].last_known_path,
                        ms0,
                        old_path@,
                        new_path@,
                        0,
                    );
                    (#[trigger] f0.paths[e]).path == pe.0 && f0.paths[e].last_known_path == pe.1
                } by {}
            }
        }
        while i < n
            invariant
                i <= n,
                n == self.path_mappings@.len(),
                self.path_mappings == pre.path_mappings,
                self.watch_paths == pre.watch_paths,
                ms0 == mapping_views(self.path_mappings@),
                ms0.len() == n,
                pre.wf(),
                self.target_files@.len() == pre.target_files@.len(),
                forall|t: int|
                    0 <= t < pre.target_files@.len() ==> file_synced(
                        (#[trigger] pre.target_files@[t])@,
                        (#[trigger] self.target_files@[t])@,
                        t,
                        ms0,
                        old_path@,
                        new_path@,
                        i as int,
                    ),
                forall|t: int|
                    0 <= t < pre.target_files@.len() && !owned_by_affected(
                        ms0,
                        old_path@,
                        t,
                        i as int,
                    ) ==> #[trigger] self.target_files@[t] == pre.target_files@[t],
                plan_covers(
                    rewrite_views(plan@),
                    ms0,
                    pre.target_files@,
                    old_path@,
                    new_path@,
                    i as int,
                ),
                forall|t: int|
                    0 <= t < pre.target_files@.len() ==> {
                        let f0 = (#[trigger] pre.target_files@[t])@;
                        let f1 = (#[trigger] self.target_files@[t])@;
                        f1.path == f0.path && f1.format == f0.format && f1.paths.len()
                            == f0.paths.len()
                    },
                flags@.len() == i,
                renamed@.len() == i,
                forall|j: int|
                    0 <= j < i ==> flags@[j] == affected_key(
                        (#[trigger] ms0[j]).current_path,
                        old_path@,
                    ),
                forall|j: int|
                    0 <= j < i && flags@[j] ==> renamed_into(
                        ms0[j],
                        (#[trigger] renamed@[j])@,
                        old_path@,
                        new_path@,
                    ),
                forall|j: int| 0 <= j < i && !flags@[j] ==> (#[trigger] renamed@[j])@ == ms0[j],
                forall|k: int|
                    0 <= k < plan@.len() ==> plan_entry_ok(
                        (#[trigger] plan@[k])@,
                        ms0,
                        pre.target_files@,
                        old_path@,
                        new_path@,
                    ),
                (exists|j: int|
                    0 <= j < i && affected_key((#[trigger] ms0[j]).current_path, old_path@) && ms0[
                        j
                    ].target_files.len() > 0) ==> plan@.len() > 0,
            decreases n - i,
        {
            let affected = path_is_under(old_path, self.path_mappings[i].current_path.as_str());
            if affected {
                let old_key = self.path_mappings[i].current_path.clone();
                let new_key = rename_key(old_key.as_str(), old_path, new_path);
                let owners = copy_usizes(&self.path_mappings[i].target_files);
                proof {
                    assert(owners@ == ms0[i as int].target_files);
                    assert(key_tracked(ms0, old_key@)) by {
                        assert(ms0[i as int].current_path == old_key@);
                    }
                    assert forall|ko: int| 0 <= ko < owners@.len() implies (
                    #[trigger] owners@[ko]) < pre.target_files@.len() by {
                        assert(pre.path_mappings@[i as int]@.target_files[ko]
                            < pre.target_files@.len());
                    }
                }
                let ghost mid = *self;
                let mut adds = self.rewrite_owned_files(&owners, &old_key, &new_key);
                let ghost plan_prev = plan@;
                let ghost adds_v = adds@;
                plan.append(&mut adds);
                proof {
                    assert forall|t: int| 0 <= t < pre.target_files@.len() implies {
                        let f0 = (#[trigger] pre.target_files@[t])@;
                        let f1 = (#[trigger] self.target_files@[t])@;
                        f1.path == f0.path && f1.format == f0.format && f1.paths.len()
                            == f0.paths.len()
                    } by {
                        assert(mid.target_files@[t]@.path == pre.target_files@[t]@.path);
                        assert(self.target_files@[t]@.path == mid.target_files@[t]@.path);
                    }
                    assert(plan@ == plan_prev + adds_v);
                    assert(forall|k: int| 0 <= k < plan_prev.len() ==> plan@[k] == plan_prev[k]);
                    assert forall|k: int|
                        0 <= k < plan@.len() implies plan_entry_ok(
                        (#[trigger] plan@[k])@,
                        ms0,
                        pre.target_files@,
                        old_path@,
                        new_path@,
                    ) by {
                        if k < plan_prev.len() {
                            assert(plan@[k] == plan_prev[k]);
                            assert(plan_entry_ok(
                                plan_prev[k]@,
                                ms0,
                                pre.target_files@,
                                old_path@,
                                new_path@,
                            ));
                        } else {
                        let ko = k - plan_prev.len();
                        assert(plan@[k] == adds_v[ko]);
                        assert(adds_v[ko]@.old_path == old_key@);
                        assert(adds_v[ko]@.new_path == new_key@);
                        assert(adds_v[ko]@.file_location == mid.target_files@[owners@[
                            ko
                        ] as int]@.path);
                        assert(mid.target_files@[owners@[ko] as int]@.path == pre.target_files@[
                            owners@[ko] as int
                        ]@.path);
                        assert(0 <= owners@[ko] < pre.target_files@.len() && plan@[
                            k
                        ]@.file_location == pre.target_files@[owners@[ko] as int]@.path);
                        assert(plan@[k]@.file_location == (
                        pre.target_files@[owners@[ko] as int])@.path);
                        }
                    }
                    if owners@.len() > 0 {
                        assert(plan@.len() > 0);
                    }
                    assert(forall|k: int|
                        0 <= k < plan@.len() ==> #[trigger] rewrite_views(plan@)[k] == plan@[k]@);
                    assert(forall|k: int|
                        0 <= k < plan_prev.len() ==> #[trigger] rewrite_views(plan_prev)[k]
                            == plan_prev[k]@);
                    lemma_plan_covers_append(
                        rewrite_views(plan_prev),
                        rewrite_views(plan@),
                        ms0,
                        pre.target_files@,
                        old_path@,
                        new_path@,
                        i as int,
                    );
                    assert(plan_covers(
                        rewrite_views(plan@),
                        ms0,
                        pre.target_files@,
                        old_path@,
                        new_path@,
                        i + 1,
                    )) by {
                        let pv = rewrite_views(plan@);
                        assert forall|j: int, ko: int|
                            0 <= j < i + 1 && affected_key(ms0[j].current_path, old_path@) && 0
                                <= ko < ms0[j].target_files.len() && (
                            #[trigger] ms0[j].target_files[ko])
                                < pre.target_files@.len() implies exists|k: int|
                            0 <= k < pv.len() && (#[trigger] pv[k]).file_location
                                == pre.target_files@[ms0[j].target_files[ko] as int]@.path && pv[
                                k
                            ].old_path == ms0[j].current_path && pv[k].new_path == rename_path(
                                ms0[j].current_path,
                                old_path@,
                                new_path@,
                            ) by {
                            if j < i {
                                let k = choose|k: int|
                                    0 <= k < pv.len() && (#[trigger] pv[k]).file_location
                                        == pre.target_files@[ms0[j].target_files[ko] as int]@.path
                                        && pv[k].old_path == ms0[j].current_path && pv[k].new_path
                                        == rename_path(ms0[j].current_path, old_path@, new_path@);
                            } else {
                                let k = plan_prev.len() + ko;
                                assert(plan@[k as int] == adds_v[ko]);
                                assert(pv[k as int] == adds_v[ko]@);
                                assert(ms0[j].target_files[ko] == owners@[ko]);
                                assert(adds_v[ko]@.file_location == mid.target_files@[owners@[
                                    ko
                                ] as int]@.path);
                                assert(mid.target_files@[owners@[ko] as int]@.path
                                    == pre.target_files@[owners@[ko] as int]@.path);
                                assert(0 <= k < pv.len() && pv[k as int].file_location
                                    == pre.target_files@[ms0[j].target_files[ko] as int]@.path
                                    && pv[k as int].old_path == ms0[j].current_path && pv[
                                    k as int
                                ].new_path == rename_path(
                                    ms0[j].current_path,
                                    old_path@,
                                    new_path@,
                                ));
                            }
                        }
                    }
                    assert forall|t: int|
                        0 <= t < pre.target_files@.len() implies file_synced(
                        (#[trigger] pre.target_files@[t])@,
                        (#[trigger] self.target_files@[t])@,
                        t,
                        ms0,
                        old_path@,
                        new_path@,
                        i + 1,
                    ) by {
                        let f0 = pre.target_files@[t]@;
                        let fm = mid.target_files@[t]@;
                        let f1 = self.target_files@[t]@;
                        assert(file_synced(f0, fm, t, ms0, old_path@, new_path@, i as int));
                        if owners@.contains(t as usize) {
                            assert(file_repoints(fm, f1, old_key@, new_key@));
                            assert forall|e: int| 0 <= e < f0.paths.len() implies {
                                let pe = synced_entry(
                                    t,
                                    f0.paths[e].path,
                                    f0.paths[e].last_known_path,
                                    ms0,
                                    old_path@,
                                    new_path@,
                                    i + 1,
                                );
                                (#[trigger] f1.paths[e]).path == pe.0
                                    && f1.paths[e].last_known_path == pe.1
                            } by {
                                let prev = synced_entry(
                                    t,
                                    f0.paths[e].path,
                                    f0.paths[e].last_known_path,
                                    ms0,
                                    old_path@,
                                    new_path@,
                                    i as int,
                                );
                                assert(fm.paths[e].path == prev.0 && fm.paths[e].last_known_path
                                    == prev.1);
                                assert(entry_repoints(fm.paths[e], f1.paths[e], old_key@, new_key@));
                                assert(old_key@ == ms0[i as int].current_path);
                                assert(ms0[i as int].target_files.contains(t as usize));
                            }
                        } else {
                            assert(self.target_files@[t] == mid.target_files@[t]);
                            assert forall|e: int| 0 <= e < f0.paths.len() implies {
                                let pe = synced_entry(
                                    t,
                                    f0.paths[e].path,
                                    f0.paths[e].last_known_path,
                                    ms0,
                                    old_path@,
                                    new_path@,
                                    i + 1,
                                );
                                (#[trigger] f1.paths[e]).path == pe.0
                                    && f1.paths[e].last_known_path == pe.1
                            } by {
                                assert(!ms0[i as int].target_files.contains(t as usize));
                            }
                        }
                    }
                    assert forall|t: int|
                        0 <= t < pre.target_files@.len() && !owned_by_affected(
                            ms0,
                            old_path@,
                            t,
                            i + 1,
                        ) implies #[trigger] self.target_files@[t] == pre.target_files@[t] by {
                        assert(!owned_by_affected(ms0, old_path@, t, i as int)) by {
                            if owned_by_affected(ms0, old_path@, t, i as int) {
                                let j = choose|j: int|
                                    0 <= j < i && affected_key(
                                        (#[trigger] ms0[j]).current_path,
                                        old_path@,
                                    ) && ms0[j].target_files.contains(t as usize);
                                assert(owned_by_affected(ms0, old_path@, t, i + 1));
                            }
                        }
                        assert(!owners@.contains(t as usize)) by {
                            if owners@.contains(t as usize) {
                                assert(affected_key(ms0[i as int].current_path, old_path@));
                                assert(owned_by_affected(ms0, old_path@, t, i + 1));
                            }
                        }
                        assert(mid.target_files@[t] == pre.target_files@[t]);
                        assert(self.target_files@[t] == mid.target_files@[t]);
                    }
                }
                let ex = path_exists(new_key.as_str());
                renamed.push(
                    PathMapping {
                        original_path: self.path_mappings[i].original_path.clone(),
                        current_path: new_key,
                        exists: ex,
                        target_files: owners,
                    },
                );
                flags.push(true);
            } else {
                proof {
                    assert(!affected_key(ms0[i as int].current_path, old_path@));
                    assert forall|t: int|
                        0 <= t < pre.target_files@.len() implies file_synced(
                        (#[trigger] pre.target_files@[t])@,
                        (#[trigger] self.target_files@[t])@,
                        t,
                        ms0,
                        old_path@,
                        new_path@,
                        i + 1,
                    ) by {
                        let f0 = pre.target_files@[t]@;
                        let f1 = self.target_files@[t]@;
                        assert(file_synced(f0, f1, t, ms0, old_path@, new_path@, i as int));
                        assert forall|e: int| 0 <= e < f0.paths.len() implies {
                            let pe = synced_entry(
                                t,
                                f0.paths[e].path,
                                f0.paths[e].last_known_path,
                                ms0,
                                old_path@,
                                new_path@,
                                i + 1,
                            );
                            (#[trigger] f1.paths[e]).path == pe.0 && f1.paths[e].last_known_path
                                == pe.1
                        } by {}
                    }
                    assert forall|t: int|
                        0 <= t < pre.target_files@.len() && !owned_by_affected(
                            ms0,
                            old_path@,
                            t,
                            i + 1,
                        ) implies #[trigger] self.target_files@[t] == pre.target_files@[t] by {
                        assert(!owned_by_affected(ms0, old_path@, t, i as int)) by {
                            if owned_by_affected(ms0, old_path@, t, i as int) {
                                let j = choose|j: int|
                                    0 <= j < i && affected_key(
                                        (#[trigger] ms0[j]).current_path,
                                        old_path@,
                                    ) && ms0[j].target_files.contains(t as usize);
                                assert(owned_by_affected(ms0, old_path@, t, i + 1));
                            }
                        }
                    }
                    lemma_plan_covers_step_unaffected(
                        rewrite_views(plan@),
                        ms0,
                        pre.target_files@,
                        old_path@,
                        new_path@,
                        i as int,
                    );
                }
                renamed.push(clone_mapping(&self.path_mappings[i]));
                flags.push(false);
            }
            i = i + 1;
        }
        (renamed, flags, plan)
    }

    /// Propagates an explicit rename: every tracked path equal to the old
    /// path or below it is re-keyed, every owning target file's entries
    /// are re-pointed, files owning no affected path are untouched, and
    /// the returned plan lists, one per affected mapping and owner, the
    /// file rewrites the caller still owes to disk. An untracked old path
    /// is a no-op with an empty plan.
    #[verifier::rlimit(100)]
    pub fn sync_path_change(&mut self, old_path: &str, new_path: &str) -> (plan: Vec<PathRewrite>)
        requires
            old(self).wf(),
        ensures
            final(self).wf(),
            sync_step(*old(self), *final(self), rewrite_views(plan@), old_path@, new_path@),
            (forall|i: int|
                0 <= i < old(self).path_mappings@.len() ==> !affected_key(
                    (#[trigger] old(self).path_mappings@[i]@).current_path,
                    old_path@,
                )) ==> (mapping_views(final(self).path_mappings@) == mapping_views(
                old(self).path_mappings@,
            ) && final(self).target_files@ == old(self).target_files@ && plan@.len() == 0),
    {
        let ghost pre = *old(self);
        let ghost ms0 = mapping_views(pre.path_mappings@);
        let (renamed, flags, plan) = self.apply_renames(old_path, new_path);
        let out = rebuild_index_after_rename(&renamed, &flags, Ghost(ms0));
        self.path_mappings = out;
        proof {
            let ms1 = mapping_views(self.path_mappings@);
            assert forall|i2: int, k: int|
                0 <= i2 < self.path_mappings@.len() && 0 <= k
                    < self.path_mappings@[i2]@.target_files.len() implies (
            #[trigger] self.path_mappings@[i2]@.target_files[k])
                < self.target_files@.len() by {
                assert(drawn_from(out@, renamed@));
                assert(out@.len() == self.path_mappings@.len());
                assert(self.path_mappings@[i2]@ == out@[i2]@);
                assert(exists|src: int|
                    0 <= src < renamed@.len() && (#[trigger] out@[i2])@ == renamed@[src]@);
                let src = choose|src: int|
                    0 <= src < renamed@.len() && (#[trigger] out@[i2])@ == renamed@[src]@;
                if flags@[src] {
                    assert(self.path_mappings@[i2]@.target_files == ms0[src].target_files);
                } else {
                    assert(self.path_mappings@[i2]@.target_files == ms0[src].target_files);
                }
                assert(pre.path_mappings@[src]@.target_files[k] < pre.target_files@.len());
            }
            assert(self.wf()) by {
                assert(keys_unique(mapping_views(self.path_mappings@))) by {
                    assert(mapping_views(self.path_mappings@) =~= mapping_views(out@));
                }
            }
            assert forall|j: int|
                0 <= j < ms0.len() && affected_key(
                    (#[trigger] ms0[j]).current_path,
                    old_path@,
                ) implies key_tracked(
                ms1,
                rename_path(ms0[j].current_path, old_path@, new_path@),
            ) by {
                assert(flags@[j]);
                assert(renamed@[j]@.current_path == rename_path(
                    ms0[j].current_path,
                    old_path@,
                    new_path@,
                ));
                assert(key_tracked(mapping_views(out@), renamed@[j]@.current_path));
            }
            assert forall|j: int|
                0 <= j < ms0.len() && !affected_key(
                    (#[trigger] ms0[j]).current_path,
                    old_path@,
                ) implies key_tracked(ms1, ms0[j].current_path) by {
                assert(!flags@[j]);
                assert(renamed@[j]@ == ms0[j]);
                assert(key_tracked(mapping_views(out@), renamed@[j]@.current_path));
            }
            assert forall|i2: int| 0 <= i2 < ms1.len() implies exists|j: int|
                0 <= j < ms0.len() && ((affected_key((#[trigger] ms0[j]).current_path, old_path@)
                    && renamed_into(ms0[j], #[trigger] ms1[i2], old_path@, new_path@)) || (
                !affected_key(ms0[j].current_path, old_path@) && ms1[i2] == ms0[j])) by {
                assert(drawn_from(out@, renamed@));
                assert(out@.len() == self.path_mappings@.len());
                assert(ms1[i2] == out@[i2]@);
                assert(exists|src: int|
                    0 <= src < renamed@.len() && (#[trigger] out@[i2])@ == renamed@[src]@);
                let src = choose|src: int|
                    0 <= src < renamed@.len() && (#[trigger] out@[i2])@ == renamed@[src]@;
                assert(ms1[i2] == renamed@[src]@);
                if flags@[src] {
                    assert(renamed_into(ms0[src], ms1[i2], old_path@, new_path@));
                } else {
                    assert(ms1[i2] == ms0[src]);
                }
            }
            if forall|j: int|
                0 <= j < ms0.len() ==> !affected_key((#[trigger] ms0[j]).current_path, old_path@) {
                assert forall|j: int| 0 <= j < ms0.len() implies !(#[trigger] flags@[j]) by {
                    assert(!affected_key(ms0[j].current_path, old_path@));
                }
                assert(out@.len() == ms0.len());
                assert forall|a: int| 0 <= a < ms1.len() implies ms1[a] == ms0[a] by {
                    assert(out@[a]@ == ms0[a]);
                }
                assert(ms1 =~= ms0);
                assert forall|t: int|
                    0 <= t < pre.target_files@.len() implies #[trigger] self.target_files@[t]
                    == pre.target_files@[t] by {
                    assert(!owned_by_affected(ms0, old_path@, t, ms0.len() as int)) by {
                        if owned_by_affected(ms0, old_path@, t, ms0.len() as int) {
                            let j = choose|j: int|
                                0 <= j < ms0.len() && affected_key(
                                    (#[trigger] ms0[j]).current_path,
                                    old_path@,
                                ) && ms0[j].target_files.contains(t as usize);
                        }
                    }
                }
                assert(self.target_files@ =~= pre.target_files@);
                assert(plan@.len() == 0) by {
                    if plan@.len() > 0 {
                        let p = rewrite_views(plan@)[0];
                        assert(p == plan@[0]@);
                        assert(key_tracked(ms0, p.old_path));
                        let jj = choose|jj: int|
                            0 <= jj < ms0.len() && (#[trigger] ms0[jj]).current_path == p.old_path;
                    }
                }
            } else {
                let jw = choose|j: int|
                    0 <= j < ms0.len() && affected_key(
                        (#[trigger] ms0[j]).current_path,
                        old_path@,
                    );
                assert(affected_key(pre.path_mappings@[jw]@.current_path, old_path@));
            }
            assert forall|k: int|
                0 <= k < rewrite_views(plan@).len() implies plan_entry_ok(
                #[trigger] rewrite_views(plan@)[k],
                ms0,
                pre.target_files@,
                old_path@,
                new_path@,
            ) by {
                assert(rewrite_views(plan@)[k] == plan@[k]@);
            }
        }
        plan
    }
}

/// What an explicit rename does. Every mapping whose key is the old path
/// or a descendant of it is re-keyed, keeping its origin and owners; every
/// other key stays tracked; no mapping appears from nowhere. Every owning
/// file's entries are re-pointed rename by rename, in mapping order, and a
/// file owning no affected path is untouched. The plan carries one owed
/// rewrite per affected mapping and owner — naming the file's location and
/// the exact old and new values — and nothing else.
pub open spec fn sync_step(
    pre: PathSyncManager,
    post: PathSyncManager,
    plan: Seq<PathRewriteView>,
    old: Seq<char>,
    new: Seq<char>,
) -> bool {
    let ms0 = mapping_views(pre.path_mappings@);
    let ms1 = mapping_views(post.path_mappings@);
    &&& post.watch_paths == pre.watch_paths
    &&& post.target_files@.len() == pre.target_files@.len()
    &&& forall|t: int|
        0 <= t < pre.target_files@.len() ==> file_synced(
            (#[trigger] pre.target_files@[t])@,
            (#[trigger] post.target_files@[t])@,
            t,
            ms0,
            old,
            new,
            ms0.len() as int,
        )
    &&& forall|t: int|
        0 <= t < pre.target_files@.len() && !owned_by_affected(ms0, old, t, ms0.len() as int)
            ==> #[trigger] post.target_files@[t] == pre.target_files@[t]
    &&& plan_covers(plan, ms0, pre.target_files@, old, new, ms0.len() as int)
    &&& forall|i: int|
        0 <= i < ms0.len() && affected_key((#[trigger] ms0[i]).current_path, old) ==> key_tracked(
            ms1,
            rename_path(ms0[i].current_path, old, new),
        )
    &&& forall|i: int|
        0 <= i < ms0.len() && !affected_key((#[trigger] ms0[i]).current_path, old)
            ==> key_tracked(ms1, ms0[i].current_path)
    &&& forall|i2: int|
        0 <= i2 < ms1.len() ==> exists|i: int|
            0 <= i < ms0.len() && ((affected_key((#[trigger] ms0[i]).current_path, old)
                && renamed_into(ms0[i], #[trigger] ms1[i2], old, new)) || (!affected_key(
                ms0[i].current_path,
                old,
            ) && ms1[i2] == ms0[i]))
    &&& forall|k: int|
        0 <= k < plan.len() ==> plan_entry_ok(
            #[trigger] plan[k],
            ms0,
            pre.target_files@,
            old,
            new,
        )
    &&& ((exists|i: int|
        0 <= i < ms0.len() && affected_key((#[trigger] ms0[i]).current_path, old) && ms0[
            i
        ].target_files.len() > 0) ==> plan.len() > 0)
}

/// What each planned rewrite must say: a then-tracked affected path, its
/// renamed form, and the location of one of the loaded target files.
pub open spec fn plan_entry_ok(
    p: PathRewriteView,
    ms0: Seq<PathMappingView>,
    tfs: Seq<TargetFile>,
    old: Seq<char>,
    new: Seq<char>,
) -> bool {
    &&& affected_key(p.old_path, old)
    &&& key_tracked(ms0, p.old_path)
    &&& p.new_path == rename_path(p.old_path, old, new)
    &&& exists|t: int| 0 <= t < tfs.len() && p.file_location == (#[trigger] tfs[t])@.path
}

/// Every element of `out` is one of the `renamed` mappings.
pub open spec fn drawn_from(out: Seq<PathMapping>, renamed: Seq<PathMapping>) -> bool {
    forall|a: int|
        0 <= a < out.len() ==> exists|src: int|
            0 <= src < renamed.len() && (#[trigger] out[a])@ == renamed[src]@
}

/// Rebuilds the mapping list after a rename pass: each mapping is inserted
/// under its (possibly renamed) key, first the renamed ones, then the
/// untouched ones, skipping any whose key is already present.
#[verifier::rlimit(100)]
fn rebuild_index_after_rename(
    renamed: &Vec<PathMapping>,
    flags: &Vec<bool>,
    Ghost(ms0): Ghost<Seq<PathMappingView>>,
) -> (out: Vec<PathMapping>)
    requires
        flags@.len() == renamed@.len(),
        renamed@.len() == ms0.len(),
        keys_unique(ms0),
        forall|j: int| 0 <= j < ms0.len() && !flags@[j] ==> (#[trigger] renamed@[j])@ == ms0[j],
    ensures
        keys_unique(mapping_views(out@)),
        drawn_from(out@, renamed@),
        forall|j: int|
            0 <= j < ms0.len() ==> key_tracked(
                mapping_views(out@),
                (#[trigger] renamed@[j])@.current_path,
            ),
        (forall|j: int| 0 <= j < ms0.len() ==> !flags@[j]) ==> (out@.len() == ms0.len() && forall|
            a: int,
        | 0 <= a < ms0.len() ==> (#[trigger] out@[a])@ == ms0[a]),
{
    let n = renamed.len();
    let mut out: Vec<PathMapping> = Vec::new();
    let mut pass: usize = 0;
    while pass < 2
        invariant
            pass <= 2,
            n == renamed@.len(),
            flags@.len() == n,
            ms0.len() == n,
            keys_unique(ms0),
            forall|j: int| 0 <= j < n && !flags@[j] ==> (#[trigger] renamed@[j])@ == ms0[j],
            keys_unique(mapping_views(out@)),
            drawn_from(out@, renamed@),
            pass >= 1 ==> forall|j: int|
                0 <= j < n && flags@[j] ==> key_tracked(
                    mapping_views(out@),
                    (#[trigger] renamed@[j])@.current_path,
                ),
            pass >= 2 ==> forall|j: int|
                0 <= j < n ==> key_tracked(
                    mapping_views(out@),
                    (#[trigger] renamed@[j])@.current_path,
                ),
            pass == 0 ==> out@.len() == 0,
            (forall|j: int| 0 <= j < n ==> !flags@[j]) ==> (out@.len() == (if pass < 2 {
                0int
            } else {
                n as int
            }) && forall|a: int| 0 <= a < out@.len() ==> (#[trigger] out@[a])@ == ms0[a]),
        decreases 2 - pass,
    {
        let wanted = pass == 0;
        let mut j: usize = 0;
        while j < n
            invariant
                j <= n,
                pass < 2,
                wanted == (pass == 0),
                n == renamed@.len(),
                flags@.len() == n,
                ms0.len() == n,
                keys_unique(ms0),
                forall|jj: int| 0 <= jj < n && !flags@[jj] ==> (#[trigger] renamed@[jj])@ == ms0[jj],
                keys_unique(mapping_views(out@)),
                drawn_from(out@, renamed@),
                pass >= 1 ==> forall|jj: int|
                    0 <= jj < n && flags@[jj] ==> key_tracked(
                        mapping_views(out@),
                        (#[trigger] renamed@[jj])@.current_path,
                    ),
                forall|jj: int|
                    0 <= jj < j && flags@[jj] == wanted ==> key_tracked(
                        mapping_views(out@),
                        (#[trigger] renamed@[jj])@.current_path,
                    ),
                (forall|jj: int| 0 <= jj < n ==> !flags@[jj]) ==> (out@.len() == (if pass == 0 {
                    0int
                } else {
                    j as int
                }) && forall|a: int| 0 <= a < out@.len() ==> (#[trigger] out@[a])@ == ms0[a]),
            decreases n - j,
        {
            if flags[j] == wanted {
                match find_mapping_index(&out, renamed[j].current_path.as_str()) {
                    Some(found) => {
                        proof {
                            assert(mapping_views(out@)[found as int].current_path == renamed@[
                                j as int
                            ]@.current_path);
                            assert(key_tracked(
                                mapping_views(out@),
                                renamed@[j as int]@.current_path,
                            ));
                            if forall|jj: int| 0 <= jj < n ==> !flags@[jj] {
                                assert(pass == 1);
                                assert(out@[found as int]@ == ms0[found as int]);
                                assert(ms0[found as int].current_path == ms0[
                                    j as int
                                ].current_path);
                                assert(found as int != j as int);
                            }
                        }
                    },
                    None => {
                        let ghost out_prev = out@;
                        out.push(clone_mapping(&renamed[j]));
                        proof {
                            assert(out@ == out_prev.push(out@[out_prev.len() as int]));
                            assert(out@[out_prev.len() as int]@ == renamed@[j as int]@);
                            assert(forall|a: int|
                                0 <= a < out_prev.len() ==> out@[a] == out_prev[a]);
                            let mso = mapping_views(out@);
                            assert(keys_unique(mso)) by {
                                assert forall|a1: int, a2: int|
                                    0 <= a1 < a2 < mso.len() implies (
                                #[trigger] mso[a1]).current_path != (
                                #[trigger] mso[a2]).current_path by {
                                    if a2 == out_prev.len() as int {
                                        assert(out_prev[a1]@.current_path != renamed@[
                                            j as int
                                        ]@.current_path);
                                        assert(mso[a1] == out_prev[a1]@);
                                    } else {
                                        assert(mso[a1] == mapping_views(out_prev)[a1]);
                                        assert(mso[a2] == mapping_views(out_prev)[a2]);
                                    }
                                }
                            }
                            assert(key_tracked(mso, renamed@[j as int]@.current_path)) by {
                                assert(mso[out_prev.len() as int].current_path == renamed@[
                                    j as int
                                ]@.current_path);
                            }
                            assert(drawn_from(out@, renamed@)) by {
                                assert forall|a: int|
                                    0 <= a < out@.len() implies exists|src: int|
                                    0 <= src < renamed@.len() && (#[trigger] out@[a])@ == renamed@[
                                        src
                                    ]@ by {
                                    if a < out_prev.len() {
                                        assert(drawn_from(out_prev, renamed@));
                                        let src = choose|src: int|
                                            0 <= src < renamed@.len() && (
                                            #[trigger] out_prev[a])@ == renamed@[src]@;
                                        assert((out@[a])@ == renamed@[src]@);
                                    } else {
                                        assert((out@[a])@ == renamed@[j as int]@);
                                    }
                                }
                            }
                            assert forall|jj: int|
                                0 <= jj < n && key_tracked(
                                    mapping_views(out_prev),
                                    (#[trigger] renamed@[jj])@.current_path,
                                ) implies key_tracked(mso, renamed@[jj]@.current_path) by {
                                let a = choose|a: int|
                                    0 <= a < mapping_views(out_prev).len() && (
                                    #[trigger] mapping_views(out_prev)[a]).current_path
                                        == renamed@[jj]@.current_path;
                                assert(mso[a].current_path == renamed@[jj]@.current_path);
                            }
                            if forall|jj: int| 0 <= jj < n ==> !flags@[jj] {
                                assert(renamed@[j as int]@ == ms0[j as int]);
                            }
                        }
                    },
                }
            } else {
                proof {
                    if forall|jj: int| 0 <= jj < n ==> !flags@[jj] {
                        assert(!flags@[j as int]);
                        assert(wanted);
                        assert(pass == 0);
                    }
                }
            }
            j = j + 1;
        }
        pass = pass + 1;
    }
    out
}


/// The display name of a location: its final path component, or a stand-in
/// where there is none.
pub open spec fn display_name_spec(path: Seq<char>) -> Seq<char> {
    let comp = path.subrange(crate::text::last_index_of(path, '/') + 1, path.len() as int);
    if comp.len() == 0 {
        "unknown"@
    } else {
        comp
    }
}

impl PathSyncManager {
    /// A read-only projection of the index: every tracked path, whether it
    /// exists, and the display names of its owning target files.
    pub fn get_path_status(&self) -> (r: Vec<(String, bool, Vec<String>)>)
        requires
            self.wf(),
        ensures
            r@.len() == self.path_mappings@.len(),
            forall|i: int|
                0 <= i < r@.len() ==> {
                    let m = #[trigger] self.path_mappings@[i]@;
                    let row = #[trigger] r@[i];
                    &&& row.0@ == m.current_path
                    &&& row.1 == m.exists
                    &&& row.2@.len() == m.target_files.len()
                    &&& forall|k: int|
                        0 <= k < m.target_files.len() ==> (#[trigger] row.2@[k])@
                            == display_name_spec(
                            self.target_files@[m.target_files[k] as int]@.path,
                        )
                },
    {
        let mut r: Vec<(String, bool, Vec<String>)> = Vec::new();
        let mut i: usize = 0;
        while i < self.path_mappings.len()
            invariant
                self.wf(),
                i <= self.path_mappings@.len(),
                r@.len() == i,
                forall|ii: int|
                    0 <= ii < i ==> {
                        let m = #[trigger] self.path_mappings@[ii]@;
                        let row = #[trigger] r@[ii];
                        &&& row.0@ == m.current_path
                        &&& row.1 == m.exists
                        &&& row.2@.len() == m.target_files.len()
                        &&& forall|k: int|
                            0 <= k < m.target_files.len() ==> (#[trigger] row.2@[k])@
                                == display_name_spec(
                                self.target_files@[m.target_files[k] as int]@.path,
                            )
                    },
            decreases self.path_mappings@.len() - i,
        {
            let m = &self.path_mappings[i];
            let mut names: Vec<String> = Vec::new();
            let mut k: usize = 0;
            while k < m.target_files.len()
                invariant
                    self.wf(),
                    i < self.path_mappings@.len(),
                    m == &self.path_mappings@[i as int],
                    k <= m.target_files@.len(),
                    names@.len() == k,
                    forall|kk: int|
                        0 <= kk < k ==> (#[trigger] names@[kk])@ == display_name_spec(
                            self.target_files@[m.target_files@[kk] as int]@.path,
                        ),
                decreases m.target_files@.len() - k,
            {
                let t = m.target_files[k];
                proof {
                    assert(self.path_mappings@[i as int]@.target_files[k as int]
                        < self.target_files@.len());
                }
                let name = display_name(self.target_files[t].path.as_str());
                names.push(name);
                k = k + 1;
            }
            r.push((m.current_path.clone(), m.exists, names));
            i = i + 1;
        }
        r
    }
}

/// The final path component of a location, or a stand-in where there is
/// none.
pub fn display_name(path: &str) -> (r: String)
    ensures
        r@ == display_name_spec(path@),
{
    let chars = to_chars(path);
    let n = chars.len();
    let comp_start: usize = match crate::text::last_index_char(&chars, '/') {
        Some(p) => p + 1,
        None => 0,
    };
    let comp = copy_range(&chars, comp_start, n);
    if comp.len() == 0 {
        let r = String::from_str("unknown");
        proof {
            assert(r@ == display_name_spec(path@));
        }
        r
    } else {
        from_chars(&comp)
    }
}

/// Renaming a path to itself leaves every affected key unchanged, so the
/// index keeps tracking the same paths.
pub proof fn lemma_rename_path_self(key: Seq<char>, p: Seq<char>)
    requires
        affected_key(key, p),
    ensures
        rename_path(key, p, p) == key,
{
    if key != p {
        assert(starts_with_seq(key, p + seq!['/']));
        assert forall|x: int| 0 <= x < p.len() implies key[x] == p[x] by {
            assert(key.subrange(0, p.len() as int + 1)[x] == (p + seq!['/'])[x]);
        }
        assert(p + key.subrange(p.len() as int, key.len() as int) =~= key);
    }
}

/// A rename moves every tracked descendant of the old path along with it:
/// the key built as the old path, a separator, and a remainder is re-keyed
/// to the new path followed by the same separator and remainder.
pub proof fn lemma_directory_prefix_propagation(
    old: Seq<char>,
    new: Seq<char>,
    rest: Seq<char>,
)
    requires
        rest.len() > 0,
        rest[0] == '/',
    ensures
        affected_key(old + rest, old),
        rename_path(old + rest, old, new) == new + rest,
{
    let key = old + rest;
    assert(starts_with_seq(key, old + seq!['/'])) by {
        assert(key.subrange(0, old.len() as int + 1) =~= old + seq!['/']);
    }
    assert(key != old);
    assert(key.subrange(old.len() as int, key.len() as int) =~= rest);
}

/// A tracked key: some mapping points at the path right now.
pub open spec fn key_tracked(ms: Seq<PathMappingView>, p: Seq<char>) -> bool {
    exists|i: int| 0 <= i < ms.len() && (#[trigger] ms[i]).current_path == p
}

/// The filtering invariant: a path is in the index exactly when some
/// target file holds an entry for it and it lies under a watch root.
pub proof fn lemma_filtering_invariant(
    ms: Seq<PathMappingView>,
    tfs: Seq<TargetFileView>,
    roots: Seq<Seq<char>>,
)
    requires
        index_sound(ms, tfs, roots),
        index_complete(ms, tfs, roots),
    ensures
        forall|p: Seq<char>|
            #[trigger] key_tracked(ms, p) <==> ((exists|t: int, e: int|
                0 <= t < tfs.len() && 0 <= e < tfs[t].paths.len() && (#[trigger] tfs[
                    t
                ].paths[e]).path == p) && in_watch_roots(p, roots)),
{
    assert forall|p: Seq<char>| #[trigger]
        key_tracked(ms, p) implies ((exists|t: int, e: int|
        0 <= t < tfs.len() && 0 <= e < tfs[t].paths.len() && (#[trigger] tfs[t].paths[e]).path
            == p) && in_watch_roots(p, roots)) by {
        let i = choose|i: int| 0 <= i < ms.len() && (#[trigger] ms[i]).current_path == p;
        let m = ms[i];
        assert(owners_sound(m, tfs));
        let t = m.target_files[0];
        assert(target_has_path(tfs[t as int], p));
        let e = choose|e: int|
            0 <= e < tfs[t as int].paths.len() && (#[trigger] tfs[t as int].paths[e]).path == p;
        assert(tfs[t as int].paths[e].path == p);
    }
    assert forall|p: Seq<char>|
        ((exists|t: int, e: int|
            0 <= t < tfs.len() && 0 <= e < tfs[t].paths.len() && (#[trigger] tfs[
                t
            ].paths[e]).path == p) && in_watch_roots(p, roots)) implies #[trigger] key_tracked(
        ms,
        p,
    ) by {
        let (t, e) = choose|t: int, e: int|
            0 <= t < tfs.len() && 0 <= e < tfs[t].paths.len() && (#[trigger] tfs[t].paths[e]).path
                == p;
        assert(in_watch_roots(tfs[t].paths[e].path, roots));
        let i = choose|i: int|
            0 <= i < ms.len() && (#[trigger] ms[i]).current_path == tfs[t].paths[e].path && ms[
                i
            ].target_files.contains(t as usize);
    }
}

} // verus!
