pub mod codec;
pub mod disk;
pub mod config;
pub mod error;
pub mod events;
pub mod i18n;
pub mod path_sync;
pub mod target_files;
pub mod text;
pub mod tree;

use vstd::prelude::*;

use crate::events::FsEvent;
use crate::text::{
    contains_chars, contains_seq, ends_with_chars, ends_with_seq, occurs_at, replace_all_chars,
    replace_all_seq, starts_with_chars, starts_with_seq, to_chars,
};

verus! {

proof fn lemma_dir_core_strip(x: Seq<char>)
    requires
        !contains_seq(x, "/**"@),
    ensures
        replace_all_seq(x + "/**"@, "/**"@, Seq::empty()) == x,
    decreases x.len(),
{
    reveal_strlit("/**");
    let m = "/**"@;
    let s = x + m;
    if x.len() == 0 {
        assert(s =~= m);
        assert(starts_with_seq(m, m)) by {
            assert(m.subrange(0, 3) =~= m);
        }
        assert(m.subrange(3, 3) =~= Seq::<char>::empty());
        assert(replace_all_seq(Seq::<char>::empty(), m, Seq::<char>::empty())
            == Seq::<char>::empty());
        assert(Seq::<char>::empty() + Seq::<char>::empty() =~= x);
    } else {
        assert(!starts_with_seq(s, m)) by {
            if starts_with_seq(s, m) {
                if x.len() >= 3 {
                    assert(x.subrange(0, 3) =~= s.subrange(0, 3));
                    assert(occurs_at(x, m, 0));
                } else if x.len() == 1 {
                    assert(s.subrange(0, 3)[1] == m[0]);
                    assert(m[1] != m[0]);
                } else {
                    assert(s.subrange(0, 3)[2] == m[0]);
                    assert(m[2] != m[0]);
                }
            }
        }
        let x1 = x.subrange(1, x.len() as int);
        assert(s.subrange(1, s.len() as int) =~= x1 + m);
        assert(!contains_seq(x1, m)) by {
            if contains_seq(x1, m) {
                let i = choose|i: int| occurs_at(x1, m, i);
                assert(x.subrange(i + 1, i + 4) =~= x1.subrange(i, i + 3));
                assert(occurs_at(x, m, i + 1));
            }
        }
        lemma_dir_core_strip(x1);
        assert(replace_all_seq(s, m, Seq::<char>::empty()) == seq![s[0]] + x1);
        assert(seq![s[0]] + x1 =~= x);
    }
}

/// For a subtree pattern built as `x` followed by `/**`, any path that
/// contains `x` matches the pattern (stated for an `x` that does not itself
/// contain the `/**` marker).
pub proof fn lemma_directory_pattern_ignores(path: Seq<char>, x: Seq<char>)
    requires
        !contains_seq(x, "/**"@),
        contains_seq(path, x),
    ensures
        matches_ignore_pattern_spec(path, x + "/**"@),
{
    reveal_strlit("/**");
    reveal_strlit("**");
    let pattern = x + "/**"@;
    assert(is_directory_pattern_spec(pattern)) by {
        assert(pattern.subrange(x.len() as int + 1, x.len() as int + 3) =~= "**"@);
        assert(occurs_at(pattern, "**"@, x.len() as int + 1));
    }
    lemma_dir_core_strip(x);
}

/// For an extension pattern built as `*.` followed by `ext`, any path that
/// ends with `ext` matches the pattern (stated for an `ext` that does not
/// contain `**`).
pub proof fn lemma_extension_pattern_ignores(path: Seq<char>, ext: Seq<char>)
    requires
        !contains_seq(ext, "**"@),
        ends_with_seq(path, ext),
    ensures
        matches_ignore_pattern_spec(path, "*."@ + ext),
{
    reveal_strlit("*.");
    reveal_strlit("**");
    let pattern = "*."@ + ext;
    assert(!is_directory_pattern_spec(pattern)) by {
        if is_directory_pattern_spec(pattern) {
            let i = choose|i: int| occurs_at(pattern, "**"@, i);
            assert(pattern.subrange(i, i + 2)[0] == pattern[i]);
            assert(pattern.subrange(i, i + 2)[1] == pattern[i + 1]);
            if i >= 2 {
                assert(ext.subrange(i - 2, i) =~= pattern.subrange(i, i + 2));
                assert(occurs_at(ext, "**"@, i - 2));
            } else {
                assert(pattern[1] == '.');
            }
        }
    }
    assert(is_extension_pattern_spec(pattern)) by {
        assert(pattern.subrange(0, 2) =~= "*."@);
    }
    assert(pattern.subrange(2, pattern.len() as int) =~= ext);
}

/// An event is never ignored when there are no patterns, nor when it names
/// no paths.
pub proof fn lemma_nothing_to_match_never_ignores(paths: Seq<Seq<char>>, patterns: Seq<Seq<char>>)
    ensures
        patterns.len() == 0 ==> !should_ignore_spec(paths, patterns),
        paths.len() == 0 ==> !should_ignore_spec(paths, patterns),
{
}

/// True when the pattern names a directory subtree (it contains `**`).
pub open spec fn is_directory_pattern_spec(pattern: Seq<char>) -> bool {
    contains_seq(pattern, "**"@)
}

/// True when the pattern names a file extension (it starts with `*.`).
pub open spec fn is_extension_pattern_spec(pattern: Seq<char>) -> bool {
    starts_with_seq(pattern, "*."@)
}

/// A directory pattern with every `/**` marker removed.
pub open spec fn directory_pattern_core(pattern: Seq<char>) -> Seq<char> {
    replace_all_seq(pattern, "/**"@, Seq::empty())
}

/// How one ignore pattern is matched against one path: a pattern with `**`
/// matches by containment of its core, a `*.`-pattern by suffix, and any
/// other pattern by containment.
pub open spec fn matches_ignore_pattern_spec(path: Seq<char>, pattern: Seq<char>) -> bool {
    if is_directory_pattern_spec(pattern) {
        contains_seq(path, directory_pattern_core(pattern))
    } else if is_extension_pattern_spec(pattern) {
        ends_with_seq(path, pattern.subrange(2, pattern.len() as int))
    } else {
        contains_seq(path, pattern)
    }
}

/// True when some path of the event matches some ignore pattern.
pub open spec fn should_ignore_spec(paths: Seq<Seq<char>>, patterns: Seq<Seq<char>>) -> bool {
    exists|i: int, j: int|
        0 <= i < paths.len() && 0 <= j < patterns.len() && matches_ignore_pattern_spec(
            paths[i],
            patterns[j],
        )
}

/// True when the pattern names a directory subtree.
pub fn is_directory_pattern(pattern: &str) -> (r: bool)
    ensures
        r == is_directory_pattern_spec(pattern@),
{
    let p = to_chars(pattern);
    let stars = to_chars("**");
    contains_chars(&p, &stars)
}

/// True when the pattern names a file extension.
pub fn is_extension_pattern(pattern: &str) -> (r: bool)
    ensures
        r == is_extension_pattern_spec(pattern@),
{
    let p = to_chars(pattern);
    let star_dot = to_chars("*.");
    starts_with_chars(&p, &star_dot)
}

/// Matches a path against a directory pattern: the path must contain the
/// pattern with its `/**` markers removed.
pub fn matches_directory_pattern(path: &str, pattern: &str) -> (r: bool)
    ensures
        r == contains_seq(path@, directory_pattern_core(pattern@)),
{
    let p = to_chars(pattern);
    let marker = to_chars("/**");
    let empty: Vec<char> = Vec::new();
    let core = replace_all_chars(&p, &marker, &empty);
    let pa = to_chars(path);
    contains_chars(&pa, &core)
}

/// Matches a path against an extension pattern: the path must end with what
/// follows the `*.`; a pattern without the `*.` prefix matches nothing.
pub fn matches_extension_pattern(path: &str, pattern: &str) -> (r: bool)
    ensures
        r == (is_extension_pattern_spec(pattern@) && ends_with_seq(
            path@,
            pattern@.subrange(2, pattern@.len() as int),
        )),
{
    let p = to_chars(pattern);
    let star_dot = to_chars("*.");
    if !starts_with_chars(&p, &star_dot) {
        return false;
    }
    proof {
        reveal_strlit("*.");
        assert(p@.len() >= 2);
    }
    let mut ext: Vec<char> = Vec::new();
    proof {
        assert(ext@ =~= p@.subrange(2, 2));
    }
    let mut i: usize = 2;
    while i < p.len()
        invariant
            2 <= i <= p@.len(),
            ext@ == p@.subrange(2, i as int),
        decreases p@.len() - i,
    {
        ext.push(p[i]);
        proof {
            assert(ext@ =~= p@.subrange(2, i + 1 as int));
        }
        i = i + 1;
    }
    let pa = to_chars(path);
    ends_with_chars(&pa, &ext)
}

/// Matches a path against one ignore pattern, dispatching on the pattern's
/// shape.
pub fn matches_ignore_pattern(path: &str, pattern: &str) -> (r: bool)
    ensures
        r == matches_ignore_pattern_spec(path@, pattern@),
{
    if is_directory_pattern(pattern) {
        matches_directory_pattern(path, pattern)
    } else if is_extension_pattern(pattern) {
        matches_extension_pattern(path, pattern)
    } else {
        let pa = to_chars(path);
        let p = to_chars(pattern);
        contains_chars(&pa, &p)
    }
}

/// Decides whether an event should be ignored: true exactly when one of its
/// paths matches one of the patterns.
pub fn should_ignore_event(event: &FsEvent, ignore_patterns: &Vec<String>) -> (r: bool)
    ensures
        r == should_ignore_spec(event.paths.deep_view(), ignore_patterns.deep_view()),
{
    let ghost paths = event.paths.deep_view();
    let ghost patterns = ignore_patterns.deep_view();
    let mut i: usize = 0;
    while i < event.paths.len()
        invariant
            paths == event.paths.deep_view(),
            patterns == ignore_patterns.deep_view(),
            i <= paths.len(),
            paths.len() == event.paths@.len(),
            forall|a: int, b: int|
                0 <= a < i && 0 <= b < patterns.len() ==> !matches_ignore_pattern_spec(
                    paths[a],
                    patterns[b],
                ),
        decreases paths.len() - i,
    {
        let path = &event.paths[i];
        let mut j: usize = 0;
        while j < ignore_patterns.len()
            invariant
                paths == event.paths.deep_view(),
                patterns == ignore_patterns.deep_view(),
                i < paths.len(),
                paths.len() == event.paths@.len(),
                patterns.len() == ignore_patterns@.len(),
                j <= patterns.len(),
                path == &event.paths@[i as int],
                forall|b: int|
                    0 <= b < j ==> !matches_ignore_pattern_spec(paths[i as int], patterns[b]),
            decreases patterns.len() - j,
        {
            if matches_ignore_pattern(path.as_str(), ignore_patterns[j].as_str()) {
                proof {
                    assert(paths[i as int] == path@);
                    assert(patterns[j as int] == ignore_patterns@[j as int]@);
                }
                return true;
            }
            j = j + 1;
        }
        i = i + 1;
    }
    false
}

} // verus!
