//! The engine's configuration: watch roots, ignore patterns, target file
//! locations and the interface language. Reading and writing it to disk is
//! the surrounding application's business.

use vstd::prelude::*;

use crate::disk::path_exists;
use crate::error::SyncError;
use crate::text::str_eq;

verus! {

/// The configuration values the engine runs with.
#[derive(Clone, Debug, PartialEq)]
pub struct Config {
    pub watch_paths: Vec<String>,
    pub recursive: bool,
    pub ignore_patterns: Vec<String>,
    pub language: Option<String>,
    pub target_files: Vec<String>,
}

/// True when some element of `v` reads `s`.
pub open spec fn has_string(v: Seq<String>, s: Seq<char>) -> bool {
    exists|i: int| 0 <= i < v.len() && (#[trigger] v[i])@ == s
}

/// True when `v` holds the string `s`.
pub fn contains_string(v: &Vec<String>, s: &str) -> (r: bool)
    ensures
        r == has_string(v@, s@),
{
    let mut i: usize = 0;
    while i < v.len()
        invariant
            i <= v@.len(),
            forall|j: int| 0 <= j < i ==> (#[trigger] v@[j])@ != s@,
        decreases v@.len() - i,
    {
        if str_eq(v[i].as_str(), s) {
            return true;
        }
        i = i + 1;
    }
    false
}

impl Default for Config {
    /// The configuration used until one is loaded: no watch paths, no
    /// target files, recursive watching, the usual noise patterns ignored,
    /// and no language preference.
    fn default() -> (r: Config)
        ensures
            r.watch_paths@.len() == 0,
            r.recursive == true,
            r.ignore_patterns.deep_view() == seq!["*.tmp"@, "*.log"@, ".git/**"@, "target/**"@],
            r.language is None,
            r.target_files@.len() == 0,
    {
        let patterns: Vec<String> = vec![
            String::from_str("*.tmp"),
            String::from_str("*.log"),
            String::from_str(".git/**"),
            String::from_str("target/**"),
        ];
        proof {
            assert(patterns.deep_view() =~= seq!["*.tmp"@, "*.log"@, ".git/**"@, "target/**"@]);
        }
        Config {
            watch_paths: Vec::new(),
            recursive: true,
            ignore_patterns: patterns,
            language: None,
            target_files: Vec::new(),
        }
    }
}

/// True when `a`'s elements appear in `b`, in the same order.
pub open spec fn subsequence_of(a: Seq<String>, b: Seq<String>) -> bool
    decreases a.len(), b.len(),
{
    if a.len() == 0 {
        true
    } else if b.len() == 0 {
        false
    } else if a[0] == b[0] {
        subsequence_of(a.drop_first(), b.drop_first())
    } else {
        subsequence_of(a, b.drop_first())
    }
}

/// A subsequence of `b` is one of `b` grown at the end.
proof fn lemma_subsequence_skip(a: Seq<String>, b: Seq<String>, x: String)
    requires
        subsequence_of(a, b),
    ensures
        subsequence_of(a, b.push(x)),
    decreases a.len(), b.len(),
{
    if a.len() == 0 {
    } else {
        assert(b.push(x).drop_first() =~= b.drop_first().push(x));
        if a[0] == b[0] {
            lemma_subsequence_skip(a.drop_first(), b.drop_first(), x);
        } else {
            lemma_subsequence_skip(a, b.drop_first(), x);
        }
    }
}

/// A subsequence grows with its carrier when both take the same element.
proof fn lemma_subsequence_take(a: Seq<String>, b: Seq<String>, x: String)
    requires
        subsequence_of(a, b),
    ensures
        subsequence_of(a.push(x), b.push(x)),
    decreases a.len(), b.len(),
{
    if a.len() == 0 {
        assert(a.push(x) =~= seq![x]);
        assert(b.push(x)[0] == if b.len() == 0 {
            x
        } else {
            b[0]
        });
        lemma_subsequence_singleton(b, x);
    } else {
        assert(a.push(x).drop_first() =~= a.drop_first().push(x));
        assert(b.push(x).drop_first() =~= b.drop_first().push(x));
        if a[0] == b[0] {
            lemma_subsequence_take(a.drop_first(), b.drop_first(), x);
        } else {
            lemma_subsequence_take(a, b.drop_first(), x);
        }
    }
}

/// One element is a subsequence of anything it ends.
proof fn lemma_subsequence_singleton(b: Seq<String>, x: String)
    ensures
        subsequence_of(seq![x], b.push(x)),
    decreases b.len(),
{
    if b.len() == 0 {
        assert(b.push(x)[0] == x);
        assert(seq![x].drop_first() =~= Seq::<String>::empty());
        assert(b.push(x).drop_first() =~= Seq::<String>::empty());
        assert(subsequence_of(Seq::<String>::empty(), Seq::<String>::empty()));
    } else {
        assert(seq![x].len() == 1 && seq![x][0] == x);
        assert(b.push(x).len() == b.len() + 1);
        assert(b.push(x)[0] == b[0]);
        assert(b.push(x).drop_first() =~= b.drop_first().push(x));
        if x == b[0] {
            assert(seq![x].drop_first() =~= Seq::<String>::empty());
            assert(subsequence_of(Seq::<String>::empty(), b.push(x).drop_first()));
        } else {
            lemma_subsequence_singleton(b.drop_first(), x);
            assert(subsequence_of(seq![x], b.drop_first().push(x)));
        }
    }
}

/// The elements of `v` whose text is not `s`, in order.
pub open spec fn without_string(v: Seq<String>, s: Seq<char>) -> Seq<String>
    decreases v.len(),
{
    if v.len() == 0 {
        Seq::empty()
    } else {
        let rest = without_string(v.drop_first(), s);
        if v[0]@ == s {
            rest
        } else {
            seq![v[0]] + rest
        }
    }
}

proof fn lemma_without_string_concat(a: Seq<String>, b: Seq<String>, s: Seq<char>)
    ensures
        without_string(a + b, s) == without_string(a, s) + without_string(b, s),
    decreases a.len(),
{
    if a.len() == 0 {
        assert(a + b =~= b);
        assert(without_string(a, s) + without_string(b, s) =~= without_string(b, s));
    } else {
        lemma_without_string_concat(a.drop_first(), b, s);
        assert((a + b).drop_first() =~= a.drop_first() + b);
        assert((a + b)[0] == a[0]);
        if a[0]@ != s {
            assert(seq![a[0]] + (without_string(a.drop_first(), s) + without_string(b, s))
                =~= (seq![a[0]] + without_string(a.drop_first(), s)) + without_string(b, s));
        }
    }
}

proof fn lemma_without_string_singleton(x: String, s: Seq<char>)
    ensures
        without_string(seq![x], s) == if x@ == s {
            Seq::<String>::empty()
        } else {
            seq![x]
        },
{
    assert(seq![x].drop_first() =~= Seq::<String>::empty());
    assert(without_string(Seq::<String>::empty(), s) == Seq::<String>::empty());
    if x@ != s {
        assert(seq![x] + Seq::<String>::empty() =~= seq![x]);
    }
}

impl Config {
    /// Adds a watch path unless it is already present; true when it was
    /// added.
    pub fn add_path(&mut self, path: String) -> (r: bool)
        ensures
            r == !has_string(old(self).watch_paths@, path@),
            r ==> final(self).watch_paths@ == old(self).watch_paths@.push(path),
            !r ==> final(self).watch_paths == old(self).watch_paths,
            final(self).recursive == old(self).recursive,
            final(self).ignore_patterns == old(self).ignore_patterns,
            final(self).language == old(self).language,
            final(self).target_files == old(self).target_files,
    {
        if contains_string(&self.watch_paths, path.as_str()) {
            false
        } else {
            self.watch_paths.push(path);
            true
        }
    }

    /// Removes a watch path; true when it was present. The first matching
    /// element is taken out.
    pub fn remove_path(&mut self, path: &str) -> (r: bool)
        ensures
            r == has_string(old(self).watch_paths@, path@),
            !r ==> final(self).watch_paths == old(self).watch_paths,
            r ==> exists|i: int|
                0 <= i < old(self).watch_paths@.len() && (#[trigger] old(
                    self,
                ).watch_paths@[i])@ == path@ && final(self).watch_paths@ == old(
                    self,
                ).watch_paths@.remove(i),
            final(self).recursive == old(self).recursive,
            final(self).ignore_patterns == old(self).ignore_patterns,
            final(self).language == old(self).language,
            final(self).target_files == old(self).target_files,
    {
        let mut i: usize = 0;
        while i < self.watch_paths.len()
            invariant
                *self == *old(self),
                i <= self.watch_paths@.len(),
                forall|j: int| 0 <= j < i ==> (#[trigger] self.watch_paths@[j])@ != path@,
            decreases self.watch_paths@.len() - i,
        {
            if str_eq(self.watch_paths[i].as_str(), path) {
                self.watch_paths.remove(i);
                return true;
            }
            i = i + 1;
        }
        false
    }

    /// Sets or clears the language preference.
    pub fn set_language(&mut self, language: Option<String>) -> (r: Result<(), SyncError>)
        ensures
            r is Ok,
            final(self).language == language,
            final(self).watch_paths == old(self).watch_paths,
            final(self).recursive == old(self).recursive,
            final(self).ignore_patterns == old(self).ignore_patterns,
            final(self).target_files == old(self).target_files,
    {
        self.language = language;
        Ok(())
    }

    /// The watch paths that do not exist on disk right now: a subsequence
    /// of the watch paths, in their order. Which ones are listed is the
    /// disk probe's outcome, which can change at any time.
    pub fn validate_paths(&self) -> (r: Vec<String>)
        ensures
            subsequence_of(r@, self.watch_paths@),
            forall|k: int|
                0 <= k < r@.len() ==> has_string(self.watch_paths@, (#[trigger] r@[k])@),
    {
        let ghost w = self.watch_paths@;
        let mut invalid: Vec<String> = Vec::new();
        let mut i: usize = 0;
        proof {
            assert(w.subrange(0, 0) =~= Seq::<String>::empty());
        }
        while i < self.watch_paths.len()
            invariant
                w == self.watch_paths@,
                i <= w.len(),
                subsequence_of(invalid@, w.subrange(0, i as int)),
                forall|k: int|
                    0 <= k < invalid@.len() ==> has_string(
                        self.watch_paths@,
                        (#[trigger] invalid@[k])@,
                    ),
            decreases w.len() - i,
        {
            let ghost pre = w.subrange(0, i as int);
            let ghost inv_prev = invalid@;
            if !path_exists(self.watch_paths[i].as_str()) {
                let p = self.watch_paths[i].clone();
                proof {
                    assert(p == w[i as int]);
                }
                invalid.push(p);
                proof {
                    lemma_subsequence_take(inv_prev, pre, w[i as int]);
                    assert(invalid@ =~= inv_prev.push(w[i as int]));
                }
            } else {
                proof {
                    lemma_subsequence_skip(inv_prev, pre, w[i as int]);
                }
            }
            proof {
                assert(w.subrange(0, i + 1 as int) =~= pre.push(w[i as int]));
            }
            i = i + 1;
        }
        proof {
            assert(w.subrange(0, w.len() as int) =~= w);
        }
        invalid
    }

    /// Adds a target file location unless it is already present.
    pub fn add_target_file(&mut self, target_file: String) -> (r: Result<(), SyncError>)
        ensures
            r is Ok,
            !has_string(old(self).target_files@, target_file@) ==> final(self).target_files@
                == old(self).target_files@.push(target_file),
            has_string(old(self).target_files@, target_file@) ==> final(self).target_files == old(
                self,
            ).target_files,
            final(self).watch_paths == old(self).watch_paths,
            final(self).recursive == old(self).recursive,
            final(self).ignore_patterns == old(self).ignore_patterns,
            final(self).language == old(self).language,
    {
        if !contains_string(&self.target_files, target_file.as_str()) {
            self.target_files.push(target_file);
        }
        Ok(())
    }

    /// Removes every occurrence of a target file location.
    pub fn remove_target_file(&mut self, target_file: &str) -> (r: Result<(), SyncError>)
        ensures
            r is Ok,
            final(self).target_files@ == without_string(old(self).target_files@, target_file@),
            final(self).watch_paths == old(self).watch_paths,
            final(self).recursive == old(self).recursive,
            final(self).ignore_patterns == old(self).ignore_patterns,
            final(self).language == old(self).language,
    {
        let ghost orig = self.target_files@;
        let mut kept: Vec<String> = Vec::new();
        let mut i: usize = 0;
        proof {
            assert(orig.subrange(0, 0) =~= Seq::<String>::empty());
            assert(kept@ =~= without_string(orig.subrange(0, 0), target_file@));
        }
        while i < self.target_files.len()
            invariant
                *self == *old(self),
                orig == self.target_files@,
                i <= orig.len(),
                kept@ == without_string(orig.subrange(0, i as int), target_file@),
            decreases orig.len() - i,
        {
            let keep = !str_eq(self.target_files[i].as_str(), target_file);
            let ghost kept_prev = kept@;
            if keep {
                kept.push(self.target_files[i].clone());
            }
            proof {
                let pre = orig.subrange(0, i as int);
                let cur = orig.subrange(0, i + 1 as int);
                assert(cur =~= pre + seq![orig[i as int]]);
                lemma_without_string_concat(pre, seq![orig[i as int]], target_file@);
                lemma_without_string_singleton(orig[i as int], target_file@);
                if keep {
                    assert(kept@ =~= kept_prev + seq![orig[i as int]]) by {
                        assert(kept@ == kept_prev.push(kept@[kept_prev.len() as int]));
                        assert(kept@[kept_prev.len() as int] == orig[i as int]);
                    }
                } else {
                    assert(without_string(pre, target_file@) + Seq::<String>::empty()
                        =~= without_string(pre, target_file@));
                }
            }
            i = i + 1;
        }
        proof {
            assert(orig.subrange(0, orig.len() as int) =~= orig);
        }
        self.target_files = kept;
        Ok(())
    }

    /// The configured target file locations.
    pub fn list_target_files(&self) -> (r: &Vec<String>)
        ensures
            r == &self.target_files,
    {
        &self.target_files
    }

    /// At least one target file must be configured before synchronization
    /// can do anything.
    pub fn validate_target_files(&self) -> (r: Result<(), SyncError>)
        ensures
            r is Ok <==> self.target_files@.len() > 0,
            r matches Err(e) ==> e == SyncError::NoTargetFiles,
    {
        if self.target_files.len() == 0 {
            Err(SyncError::NoTargetFiles)
        } else {
            Ok(())
        }
    }
}

} // verus!
