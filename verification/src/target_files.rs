//! Target files: structured files whose path-like string values are
//! tracked, marked present or absent, and rewritten on renames.

use vstd::prelude::*;

use crate::codec::{
    csv_rows, json_doc, parse_csv_records, parse_json, parse_toml, parse_yaml, toml_doc,
    yaml_doc,
};
use crate::disk::path_exists;
use crate::error::SyncError;
use crate::text::{
    chars_eq, contains_char, copy_range, from_chars, last_index_char, last_index_of, str_eq,
    starts_with_chars, starts_with_seq, to_chars,
};
use crate::tree::{collect_strings, node_view, strings_of, Node, NodeView};

verus! {

/// The four supported on-disk shapes of a target file.
#[derive(Clone, Copy, PartialEq, Eq, Structural, Debug)]
pub enum TargetFileFormat {
    Json,
    Yaml,
    Toml,
    Csv,
}

/// The extension of the final path component: what follows its last dot,
/// empty when the component has no dot or only a leading one.
pub open spec fn extension_of(path: Seq<char>) -> Seq<char> {
    let comp = path.subrange(last_index_of(path, '/') + 1, path.len() as int);
    let d = last_index_of(comp, '.');
    if d <= 0 {
        Seq::empty()
    } else {
        comp.subrange(d + 1, comp.len() as int)
    }
}

/// The format a path's extension selects, if any.
pub open spec fn format_of_path(path: Seq<char>) -> Option<TargetFileFormat> {
    let e = extension_of(path);
    if e == "json"@ {
        Some(TargetFileFormat::Json)
    } else if e == "yaml"@ || e == "yml"@ {
        Some(TargetFileFormat::Yaml)
    } else if e == "toml"@ {
        Some(TargetFileFormat::Toml)
    } else if e == "csv"@ {
        Some(TargetFileFormat::Csv)
    } else {
        None
    }
}

/// The skeleton written when a target file is created from nothing.
pub open spec fn empty_skeleton_spec(f: TargetFileFormat) -> Seq<char> {
    match f {
        TargetFileFormat::Json => "[]"@,
        TargetFileFormat::Yaml => "paths: []"@,
        TargetFileFormat::Toml => "paths = []"@,
        TargetFileFormat::Csv => "path,type\n"@,
    }
}

impl TargetFileFormat {
    /// Detects the format of a target file from its location's extension.
    pub fn from_path(path: &str) -> (r: Result<TargetFileFormat, SyncError>)
        ensures
            r matches Ok(f) ==> format_of_path(path@) == Some(f),
            r matches Err(e) ==> format_of_path(path@) is None && e == SyncError::UnsupportedFormat,
    {
        let chars = to_chars(path);
        let comp_start: usize = match last_index_char(&chars, '/') {
            Some(i) => i + 1,
            None => 0,
        };
        let comp = copy_range(&chars, comp_start, chars.len());
        let ext: Vec<char> = match last_index_char(&comp, '.') {
            Some(d) => {
                if d == 0 {
                    Vec::new()
                } else {
                    copy_range(&comp, d + 1, comp.len())
                }
            },
            None => Vec::new(),
        };
        proof {
            assert(ext@ == extension_of(path@));
        }
        if chars_eq(&ext, &to_chars("json")) {
            Ok(TargetFileFormat::Json)
        } else if chars_eq(&ext, &to_chars("yaml")) || chars_eq(&ext, &to_chars("yml")) {
            Ok(TargetFileFormat::Yaml)
        } else if chars_eq(&ext, &to_chars("toml")) {
            Ok(TargetFileFormat::Toml)
        } else if chars_eq(&ext, &to_chars("csv")) {
            Ok(TargetFileFormat::Csv)
        } else {
            Err(SyncError::UnsupportedFormat)
        }
    }

    /// The empty-but-valid content for this format.
    pub fn empty_skeleton(&self) -> (r: String)
        ensures
            r@ == empty_skeleton_spec(*self),
    {
        match self {
            TargetFileFormat::Json => String::from_str("[]"),
            TargetFileFormat::Yaml => String::from_str("paths: []"),
            TargetFileFormat::Toml => String::from_str("paths = []"),
            TargetFileFormat::Csv => String::from_str("path,type\n"),
        }
    }
}

/// True when a scalar string is shaped like a filesystem path: it contains
/// a separator (which also covers the `./`, `../`, `~/` and `/` prefixes),
/// or carries a drive-letter colon.
pub open spec fn looks_like_path_spec(s: Seq<char>) -> bool {
    s.len() > 0 && (s.contains('/') || s.contains('\\') || (s.len() > 2 && s[1] == ':'))
}

/// One path-like value found inside a target file.
#[derive(Clone, Debug)]
pub struct PathEntry {
    pub path: String,
    pub exists: bool,
    pub last_known_path: Option<String>,
}

/// The mathematical shape of a path entry.
pub struct PathEntryView {
    pub path: Seq<char>,
    pub exists: bool,
    pub last_known_path: Option<Seq<char>>,
}

impl View for PathEntry {
    type V = PathEntryView;

    open spec fn view(&self) -> PathEntryView {
        PathEntryView {
            path: self.path@,
            exists: self.exists,
            last_known_path: match self.last_known_path {
                Some(p) => Some(p@),
                None => None,
            },
        }
    }
}

/// A target file: its location, its detected format, and the path entries
/// extracted from it.
#[derive(Clone, Debug)]
pub struct TargetFile {
    pub path: String,
    pub format: TargetFileFormat,
    pub paths: Vec<PathEntry>,
}

/// The mathematical shape of a target file.
pub struct TargetFileView {
    pub path: Seq<char>,
    pub format: TargetFileFormat,
    pub paths: Seq<PathEntryView>,
}

impl View for TargetFile {
    type V = TargetFileView;

    open spec fn view(&self) -> TargetFileView {
        TargetFileView {
            path: self.path@,
            format: self.format,
            paths: Seq::new(self.paths@.len(), |i: int| self.paths@[i]@),
        }
    }
}

/// The scalar strings that a document of the given format holds, in
/// visiting order, or nothing when the content does not parse.
pub open spec fn doc_strings(format: TargetFileFormat, content: Seq<char>) -> Option<
    Seq<Seq<char>>,
> {
    match format {
        TargetFileFormat::Json => match json_doc(content) {
            Some(t) => Some(strings_of(t)),
            None => None,
        },
        TargetFileFormat::Yaml => match yaml_doc(content) {
            Some(t) => Some(strings_of(t)),
            None => None,
        },
        TargetFileFormat::Toml => match toml_doc(content) {
            Some(t) => Some(strings_of(t)),
            None => None,
        },
        TargetFileFormat::Csv => match csv_rows(content) {
            Some(rows) => Some(flatten_rows(rows)),
            None => None,
        },
    }
}

/// The fields of all rows, row by row.
pub open spec fn flatten_rows(rows: Seq<Seq<Seq<char>>>) -> Seq<Seq<char>>
    decreases rows.len(),
{
    if rows.len() == 0 {
        Seq::empty()
    } else {
        rows[0] + flatten_rows(rows.drop_first())
    }
}

proof fn lemma_flatten_rows_concat(a: Seq<Seq<Seq<char>>>, b: Seq<Seq<Seq<char>>>)
    ensures
        flatten_rows(a + b) == flatten_rows(a) + flatten_rows(b),
    decreases a.len(),
{
    if a.len() == 0 {
        assert(a + b =~= b);
        assert(flatten_rows(a) + flatten_rows(b) =~= flatten_rows(b));
    } else {
        lemma_flatten_rows_concat(a.drop_first(), b);
        assert((a + b).drop_first() =~= a.drop_first() + b);
        assert((a + b)[0] == a[0]);
        assert(a[0] + (flatten_rows(a.drop_first()) + flatten_rows(b)) =~= (a[0] + flatten_rows(
            a.drop_first(),
        )) + flatten_rows(b));
    }
}

/// The path-like strings among `ss`, in order.
pub open spec fn filter_pathlike(ss: Seq<Seq<char>>) -> Seq<Seq<char>>
    decreases ss.len(),
{
    if ss.len() == 0 {
        Seq::empty()
    } else {
        let rest = filter_pathlike(ss.drop_first());
        if looks_like_path_spec(ss[0]) {
            seq![ss[0]] + rest
        } else {
            rest
        }
    }
}

proof fn lemma_filter_pathlike_concat(a: Seq<Seq<char>>, b: Seq<Seq<char>>)
    ensures
        filter_pathlike(a + b) == filter_pathlike(a) + filter_pathlike(b),
    decreases a.len(),
{
    if a.len() == 0 {
        assert(a + b =~= b);
        assert(filter_pathlike(a) + filter_pathlike(b) =~= filter_pathlike(b));
    } else {
        lemma_filter_pathlike_concat(a.drop_first(), b);
        assert((a + b).drop_first() =~= a.drop_first() + b);
        assert((a + b)[0] == a[0]);
        if looks_like_path_spec(a[0]) {
            assert(seq![a[0]] + (filter_pathlike(a.drop_first()) + filter_pathlike(b)) =~= (seq![
                a[0],
            ] + filter_pathlike(a.drop_first())) + filter_pathlike(b));
        }
    }
}

proof fn lemma_filter_pathlike_singleton(s: Seq<char>)
    ensures
        filter_pathlike(seq![s]) == if looks_like_path_spec(s) {
            seq![s]
        } else {
            Seq::<Seq<char>>::empty()
        },
{
    assert(seq![s].drop_first() =~= Seq::<Seq<char>>::empty());
    assert(filter_pathlike(Seq::<Seq<char>>::empty()) == Seq::<Seq<char>>::empty());
    if looks_like_path_spec(s) {
        assert(seq![s] + Seq::<Seq<char>>::empty() =~= seq![s]);
    }
}

/// The path-like strings that a document of the given format holds.
pub open spec fn path_strings(format: TargetFileFormat, content: Seq<char>) -> Option<
    Seq<Seq<char>>,
> {
    match doc_strings(format, content) {
        Some(all) => Some(filter_pathlike(all)),
        None => None,
    }
}

impl TargetFile {
    /// True when the string is shaped like a filesystem path and so is
    /// tracked when found inside a target file.
    pub fn looks_like_path(s: &str) -> (r: bool)
        ensures
            r == looks_like_path_spec(s@),
    {
        let v = to_chars(s);
        if v.len() == 0 {
            return false;
        }
        if contains_char(&v, '/') || contains_char(&v, '\\') {
            return true;
        }
        v.len() > 2 && v[1] == ':'
    }

    /// Extracts every scalar string of the content, in visiting order.
    fn extract_all_strings(format: TargetFileFormat, content: &str) -> (r: Result<
        Vec<String>,
        SyncError,
    >)
        ensures
            r matches Ok(v) ==> doc_strings(format, content@) == Some(v.deep_view()),
            r is Ok <==> doc_strings(format, content@) is Some,
            r matches Err(e) ==> e == SyncError::ParseError,
    {
        match format {
            TargetFileFormat::Json => {
                let node = match parse_json(content) {
                    Ok(n) => n,
                    Err(e) => {
                        return Err(e);
                    },
                };
                Ok(collect_strings(&node))
            },
            TargetFileFormat::Yaml => {
                let node = match parse_yaml(content) {
                    Ok(n) => n,
                    Err(e) => {
                        return Err(e);
                    },
                };
                Ok(collect_strings(&node))
            },
            TargetFileFormat::Toml => {
                let node = match parse_toml(content) {
                    Ok(n) => n,
                    Err(e) => {
                        return Err(e);
                    },
                };
                Ok(collect_strings(&node))
            },
            TargetFileFormat::Csv => {
                let rows = match parse_csv_records(content) {
                    Ok(rows) => rows,
                    Err(e) => {
                        return Err(e);
                    },
                };
                let mut out: Vec<String> = Vec::new();
                let mut i: usize = 0;
                proof {
                    assert(rows.deep_view().subrange(0, 0) =~= Seq::<Seq<Seq<char>>>::empty());
                    assert(out.deep_view() =~= flatten_rows(rows.deep_view().subrange(0, 0)));
                }
                while i < rows.len()
                    invariant
                        i <= rows@.len(),
                        rows.deep_view().len() == rows@.len(),
                        out.deep_view() == flatten_rows(rows.deep_view().subrange(0, i as int)),
                    decreases rows@.len() - i,
                {
                    let ghost out0 = out.deep_view();
                    crate::text::push_all_strings(&mut out, &rows[i]);
                    proof {
                        let dv = rows.deep_view();
                        assert(rows@[i as int].deep_view() == dv[i as int]);
                        let pre = dv.subrange(0, i as int);
                        let cur = dv.subrange(0, i + 1 as int);
                        assert(cur =~= pre + seq![dv[i as int]]);
                        lemma_flatten_rows_concat(pre, seq![dv[i as int]]);
                        assert(flatten_rows(seq![dv[i as int]]) == dv[i as int] + flatten_rows(
                            Seq::<Seq<Seq<char>>>::empty(),
                        )) by {
                            assert(seq![dv[i as int]].drop_first() =~= Seq::<
                                Seq<Seq<char>>,
                            >::empty());
                        }
                        assert(dv[i as int] + Seq::<Seq<char>>::empty() =~= dv[i as int]);
                        assert(out.deep_view() == flatten_rows(cur));
                    }
                    i = i + 1;
                }
                proof {
                    assert(rows.deep_view().subrange(0, rows@.len() as int) =~= rows.deep_view());
                }
                Ok(out)
            },
        }
    }

    /// Extracts the path-like strings of the content, in visiting order.
    pub fn extract_path_strings(format: TargetFileFormat, content: &str) -> (r: Result<
        Vec<String>,
        SyncError,
    >)
        ensures
            r matches Ok(v) ==> path_strings(format, content@) == Some(v.deep_view()),
            r is Ok <==> path_strings(format, content@) is Some,
            r matches Err(e) ==> e == SyncError::ParseError,
    {
        let all = match Self::extract_all_strings(format, content) {
            Ok(v) => v,
            Err(e) => {
                return Err(e);
            },
        };
        let mut out: Vec<String> = Vec::new();
        let mut i: usize = 0;
        proof {
            assert(all.deep_view().subrange(0, 0) =~= Seq::<Seq<char>>::empty());
            assert(out.deep_view() =~= filter_pathlike(all.deep_view().subrange(0, 0)));
        }
        while i < all.len()
            invariant
                i <= all@.len(),
                all.deep_view().len() == all@.len(),
                out.deep_view() == filter_pathlike(all.deep_view().subrange(0, i as int)),
            decreases all@.len() - i,
        {
            let ghost dv = all.deep_view();
            let keep = Self::looks_like_path(all[i].as_str());
            if keep {
                crate::text::push_string(&mut out, &all[i]);
            }
            proof {
                let pre = dv.subrange(0, i as int);
                let cur = dv.subrange(0, i + 1 as int);
                assert(cur =~= pre + seq![dv[i as int]]);
                lemma_filter_pathlike_concat(pre, seq![dv[i as int]]);
                lemma_filter_pathlike_singleton(dv[i as int]);
                assert(dv[i as int] == all@[i as int]@);
                if !keep {
                    assert(filter_pathlike(pre) + Seq::<Seq<char>>::empty() =~= filter_pathlike(
                        pre,
                    ));
                }
            }
            i = i + 1;
        }
        proof {
            assert(all.deep_view().subrange(0, all@.len() as int) =~= all.deep_view());
        }
        Ok(out)
    }

    /// Loads a target file from its location and content: the format comes
    /// from the location's extension, the entries from the content's
    /// path-like strings, each probed for existence on disk. An absent file
    /// (no content) yields no entries.
    pub fn new(path: String, content: Option<&str>) -> (r: Result<TargetFile, SyncError>)
        ensures
            r matches Ok(tf) ==> {
                &&& tf@.path == path@
                &&& format_of_path(path@) == Some(tf@.format)
                &&& match content {
                    Some(c) => {
                        &&& path_strings(tf@.format, c@) is Some
                        &&& entries_track(tf@.paths, path_strings(tf@.format, c@)->0)
                    },
                    None => tf@.paths.len() == 0,
                }
            },
            r matches Err(e) ==> {
                ||| (e == SyncError::UnsupportedFormat && format_of_path(path@) is None)
                ||| (e == SyncError::ParseError && format_of_path(path@) is Some
                    && (content matches Some(c) && path_strings(
                    format_of_path(path@)->0,
                    c@,
                ) is None))
            },
    {
        let format = match TargetFileFormat::from_path(path.as_str()) {
            Ok(f) => f,
            Err(e) => {
                return Err(e);
            },
        };
        let strings: Vec<String> = match content {
            Some(c) => {
                match Self::extract_path_strings(format, c) {
                    Ok(v) => v,
                    Err(e) => {
                        return Err(e);
                    },
                }
            },
            None => Vec::new(),
        };
        let mut entries: Vec<PathEntry> = Vec::new();
        let mut i: usize = 0;
        while i < strings.len()
            invariant
                i <= strings@.len(),
                entries@.len() == i,
                forall|j: int|
                    0 <= j < i ==> (#[trigger] entries@[j])@.path == strings@[j]@
                        && entries@[j]@.last_known_path is None,
            decreases strings@.len() - i,
        {
            let p = strings[i].clone();
            let e = path_exists(p.as_str());
            entries.push(PathEntry { path: p, exists: e, last_known_path: None });
            i = i + 1;
        }
        let tf = TargetFile { path, format, paths: entries };
        proof {
            if content is Some {
                assert(entries_track(tf@.paths, strings.deep_view()));
            }
        }
        Ok(tf)
    }
}

/// The entries track exactly the given strings, in order, with no rename
/// history yet.
pub open spec fn entries_track(entries: Seq<PathEntryView>, strs: Seq<Seq<char>>) -> bool {
    &&& entries.len() == strs.len()
    &&& forall|i: int|
        0 <= i < entries.len() ==> (#[trigger] entries[i]).path == strs[i]
            && entries[i].last_known_path is None
}

/// The smallest index at which `c` occurs in `s`, or `-1` when it does not.
pub open spec fn first_index_of(s: Seq<char>, c: char) -> int
    decreases s.len(),
{
    if s.len() == 0 {
        -1
    } else if s[0] == c {
        0
    } else {
        let r = first_index_of(s.drop_first(), c);
        if r < 0 {
            -1
        } else {
            r + 1
        }
    }
}

/// What `first_index_of` returns: the index of an occurrence before which
/// none comes, or `-1` when there is no occurrence at all.
pub proof fn lemma_first_index_of(s: Seq<char>, c: char)
    ensures
        -1 <= first_index_of(s, c) < s.len(),
        first_index_of(s, c) >= 0 ==> s[first_index_of(s, c)] == c,
        forall|j: int| 0 <= j < first_index_of(s, c) ==> s[j] != c,
        first_index_of(s, c) < 0 ==> forall|j: int| 0 <= j < s.len() ==> s[j] != c,
    decreases s.len(),
{
    if s.len() > 0 && s[0] != c {
        lemma_first_index_of(s.drop_first(), c);
        assert forall|j: int| 0 <= j < first_index_of(s, c) implies s[j] != c by {
            if j > 0 {
                assert(s.drop_first()[j - 1] == s[j]);
            }
        }
        if first_index_of(s, c) < 0 {
            assert forall|j: int| 0 <= j < s.len() implies s[j] != c by {
                if j > 0 {
                    assert(s.drop_first()[j - 1] == s[j]);
                }
            }
        }
    }
}

/// `s` split at every occurrence of `c`; the separators themselves are
/// dropped, and a text without any yields one piece.
pub open spec fn split_char(s: Seq<char>, c: char) -> Seq<Seq<char>>
    decreases s.len(),
    via split_char_dec
{
    let i = first_index_of(s, c);
    if i < 0 {
        seq![s]
    } else {
        seq![s.subrange(0, i)] + split_char(s.subrange(i + 1, s.len() as int), c)
    }
}

#[via_fn]
proof fn split_char_dec(s: Seq<char>, c: char) {
    lemma_first_index_of(s, c);
}

/// A line with a trailing carriage return removed.
pub open spec fn chomp_cr(l: Seq<char>) -> Seq<char> {
    if l.len() > 0 && l[l.len() - 1] == '\r' {
        l.drop_last()
    } else {
        l
    }
}

/// The lines of a text: pieces between newlines, a final empty piece
/// dropped, and each line's trailing carriage return removed.
pub open spec fn lines_of(s: Seq<char>) -> Seq<Seq<char>> {
    let ps = split_char(s, '\n');
    let kept = if ps.len() > 0 && ps[ps.len() - 1].len() == 0 {
        ps.drop_last()
    } else {
        ps
    };
    kept.map_values(|l: Seq<char>| chomp_cr(l))
}

/// A data row whose leading span equals `old` has that span replaced by
/// `new`; any other row is unchanged.
pub open spec fn csv_line_swap(l: Seq<char>, old: Seq<char>, new: Seq<char>) -> Seq<char> {
    if starts_with_seq(l, old) {
        new + l.subrange(old.len() as int, l.len() as int)
    } else {
        l
    }
}

/// Lines joined back into a text, each followed by a newline.
pub open spec fn join_lines(ls: Seq<Seq<char>>) -> Seq<char>
    decreases ls.len(),
{
    if ls.len() == 0 {
        Seq::empty()
    } else {
        ls[0] + seq!['\n'] + join_lines(ls.drop_first())
    }
}

proof fn lemma_join_lines_concat(a: Seq<Seq<char>>, b: Seq<Seq<char>>)
    ensures
        join_lines(a + b) == join_lines(a) + join_lines(b),
    decreases a.len(),
{
    if a.len() == 0 {
        assert(a + b =~= b);
        assert(join_lines(a) + join_lines(b) =~= join_lines(b));
    } else {
        lemma_join_lines_concat(a.drop_first(), b);
        assert((a + b).drop_first() =~= a.drop_first() + b);
        assert((a + b)[0] == a[0]);
        assert(a[0] + seq!['\n'] + (join_lines(a.drop_first()) + join_lines(b)) =~= (a[0]
            + seq!['\n'] + join_lines(a.drop_first())) + join_lines(b));
    }
}

proof fn lemma_join_lines_singleton(l: Seq<char>)
    ensures
        join_lines(seq![l]) == l + seq!['\n'],
{
    assert(seq![l].drop_first() =~= Seq::<Seq<char>>::empty());
    assert(join_lines(Seq::<Seq<char>>::empty()) == Seq::<char>::empty());
    assert(l + seq!['\n'] + Seq::<char>::empty() =~= l + seq!['\n']);
}

/// The row-format rewrite: the header line is kept, and every data line
/// whose leading span equals `old` has it replaced by `new`. An empty text
/// is left unchanged.
pub open spec fn csv_rewrite(content: Seq<char>, old: Seq<char>, new: Seq<char>) -> Seq<char> {
    let ls = lines_of(content);
    if ls.len() == 0 {
        content
    } else {
        join_lines(
            seq![ls[0]] + ls.subrange(1, ls.len() as int).map_values(
                |l: Seq<char>| csv_line_swap(l, old, new),
            ),
        )
    }
}

/// The smallest index at which `c` occurs in `v`, if any.
fn first_index_char(v: &Vec<char>, c: char) -> (r: Option<usize>)
    ensures
        r matches Some(i) ==> i < v@.len() && first_index_of(v@, c) == i as int,
        r is None ==> first_index_of(v@, c) == -1,
{
    proof {
        lemma_first_index_of(v@, c);
    }
    let mut i: usize = 0;
    while i < v.len()
        invariant
            i <= v@.len(),
            forall|j: int| 0 <= j < i ==> v@[j] != c,
        decreases v@.len() - i,
    {
        if v[i] == c {
            proof {
                lemma_first_index_of(v@, c);
                assert(first_index_of(v@, c) == i as int) by {
                    let r = first_index_of(v@, c);
                    if r > i as int {
                        assert(v@[i as int] != c);
                    }
                }
            }
            return Some(i);
        }
        i = i + 1;
    }
    proof {
        lemma_first_index_of(v@, c);
        assert(first_index_of(v@, c) == -1) by {
            let r = first_index_of(v@, c);
            if r >= 0 {
                assert(v@[r] != c);
            }
        }
    }
    None
}

/// Appends `piece` to `dst`; only views are spoken of.
fn push_piece(dst: &mut Vec<Vec<char>>, piece: Vec<char>)
    ensures
        final(dst).deep_view() == old(dst).deep_view() + seq![piece@],
{
    let ghost dv_prev = dst.deep_view();
    let ghost out_prev = dst@;
    let ghost pv = piece@;
    dst.push(piece);
    proof {
        assert(dst@ == out_prev.push(dst@[out_prev.len() as int]));
        let lhs = dst.deep_view();
        let rhs = dv_prev + seq![pv];
        assert(dv_prev.len() == out_prev.len());
        assert(lhs.len() == rhs.len());
        assert forall|k: int| 0 <= k < lhs.len() implies lhs[k] == rhs[k] by {
            assert(lhs[k] == dst@[k]@);
            if k < out_prev.len() {
                assert(dst@[k] == out_prev[k]);
                assert(dv_prev[k] == out_prev[k]@);
            } else {
                assert(dst@[k]@ == pv);
            }
        }
        assert(lhs =~= rhs);
    }
}

/// Splits `v` at every occurrence of `c`.
fn split_chars(v: &Vec<char>, c: char) -> (r: Vec<Vec<char>>)
    ensures
        r.deep_view() == split_char(v@, c),
{
    let mut out: Vec<Vec<char>> = Vec::new();
    let mut rest: Vec<char> = copy_range(v, 0, v.len());
    proof {
        assert(rest@ =~= v@);
        assert(out.deep_view() =~= Seq::<Seq<char>>::empty());
        assert(Seq::<Seq<char>>::empty() + split_char(v@, c) =~= split_char(v@, c));
    }
    loop
        invariant
            split_char(v@, c) == out.deep_view() + split_char(rest@, c),
        decreases rest@.len(),
    {
        match first_index_char(&rest, c) {
            None => {
                let ghost dv0 = out.deep_view();
                let ghost rv = rest@;
                push_piece(&mut out, rest);
                proof {
                    assert(split_char(rv, c) == seq![rv]);
                    assert(dv0 + seq![rv] == out.deep_view());
                }
                return out;
            },
            Some(i) => {
                let rl = rest.len();
                let piece = copy_range(&rest, 0, i);
                let next = copy_range(&rest, i + 1, rl);
                let ghost dv0 = out.deep_view();
                let ghost rv = rest@;
                push_piece(&mut out, piece);
                proof {
                    assert(split_char(rv, c) == seq![rv.subrange(0, i as int)] + split_char(
                        rv.subrange(i + 1, rv.len() as int),
                        c,
                    ));
                    assert((dv0 + seq![rv.subrange(0, i as int)]) + split_char(
                        rv.subrange(i + 1, rv.len() as int),
                        c,
                    ) =~= dv0 + (seq![rv.subrange(0, i as int)] + split_char(
                        rv.subrange(i + 1, rv.len() as int),
                        c,
                    )));
                }
                rest = next;
            },
        }
    }
}

/// The lines of `v`: split at newlines, final empty piece dropped, each
/// line's trailing carriage return removed.
fn lines_chars(v: &Vec<char>) -> (r: Vec<Vec<char>>)
    ensures
        r.deep_view() == lines_of(v@),
{
    let mut ps = split_chars(v, '\n');
    proof {
        assert(split_char(v@, '\n').len() > 0) by {
            lemma_first_index_of(v@, '\n');
        }
        assert(ps.deep_view().len() == ps@.len());
    }
    if ps.len() > 0 && ps[ps.len() - 1].len() == 0 {
        let ghost dv = ps.deep_view();
        ps.pop();
        proof {
            assert(ps.deep_view() =~= dv.drop_last());
        }
    }
    let mut out: Vec<Vec<char>> = Vec::new();
    let mut i: usize = 0;
    let ghost kept = ps.deep_view();
    proof {
        assert(out.deep_view() =~= kept.map_values(|l: Seq<char>| chomp_cr(l)).subrange(0, 0));
    }
    while i < ps.len()
        invariant
            i <= ps@.len(),
            kept == ps.deep_view(),
            kept.len() == ps@.len(),
            out.deep_view() == kept.map_values(|l: Seq<char>| chomp_cr(l)).subrange(0, i as int),
        decreases ps@.len() - i,
    {
        let line = &ps[i];
        let piece: Vec<char> = if line.len() > 0 && line[line.len() - 1] == '\r' {
            copy_range(line, 0, line.len() - 1)
        } else {
            copy_range(line, 0, line.len())
        };
        proof {
            assert(line@ == kept[i as int]);
            assert(piece@ =~= chomp_cr(kept[i as int]));
        }
        let ghost dv0 = out.deep_view();
        push_piece(&mut out, piece);
        proof {
            let m = kept.map_values(|l: Seq<char>| chomp_cr(l));
            assert(m[i as int] == chomp_cr(kept[i as int]));
            assert(out.deep_view() =~= m.subrange(0, i + 1 as int));
        }
        i = i + 1;
    }
    proof {
        let m = kept.map_values(|l: Seq<char>| chomp_cr(l));
        assert(m.subrange(0, kept.len() as int) =~= m);
    }
    out
}

/// The document a content of the given format parses to; the row format
/// has no document tree.
pub open spec fn format_doc(format: TargetFileFormat, content: Seq<char>) -> Option<NodeView> {
    match format {
        TargetFileFormat::Json => json_doc(content),
        TargetFileFormat::Yaml => yaml_doc(content),
        TargetFileFormat::Toml => toml_doc(content),
        TargetFileFormat::Csv => None,
    }
}

impl TargetFile {
    /// Rewrites file content for a rename: every scalar string value
    /// exactly equal to `old_path` becomes `new_path`; for the row format
    /// the rewrite is line-oriented instead. The content itself is not
    /// touched on disk; the new text is returned.
    pub fn rewrite_content(
        format: TargetFileFormat,
        content: &str,
        old_path: &str,
        new_path: &str,
    ) -> (r: Result<String, SyncError>)
        ensures
            format == TargetFileFormat::Csv ==> (r matches Ok(s) && s@ == csv_rewrite(
                content@,
                old_path@,
                new_path@,
            )),
            format != TargetFileFormat::Csv ==> {
                &&& (r matches Ok(s) ==> format_doc(format, content@) is Some && format_doc(
                    format,
                    s@,
                ) == Some(
                    crate::tree::replace_tree(
                        format_doc(format, content@)->0,
                        old_path@,
                        new_path@,
                    ),
                ))
                &&& (format_doc(format, content@) is None ==> r is Err)
                &&& (r is Err ==> (format_doc(format, content@) is None || exists|m: Node|
                    node_view(m) == crate::tree::replace_tree(
                        format_doc(format, content@)->0,
                        old_path@,
                        new_path@,
                    ) && !(#[trigger] crate::codec::writer_ok(format, m))))
                &&& ((format_doc(format, content@) is Some && (forall|m: Node|
                    node_view(m) == crate::tree::replace_tree(
                        format_doc(format, content@)->0,
                        old_path@,
                        new_path@,
                    ) ==> #[trigger] crate::codec::writer_ok(format, m))) ==> r is Ok)
            },
            r matches Err(e) ==> e == SyncError::ParseError && format != TargetFileFormat::Csv,
    {
        match format {
            TargetFileFormat::Json => {
                let n = match crate::codec::parse_json(content) {
                    Ok(n) => n,
                    Err(e) => {
                        return Err(e);
                    },
                };
                let replaced = crate::tree::replace_in_node(&n, old_path, new_path);
                let written = crate::codec::to_json_text(&replaced);
                proof {
                    if written is Err {
                        assert(node_view(replaced) == crate::tree::replace_tree(
                            format_doc(format, content@)->0,
                            old_path@,
                            new_path@,
                        ));
                        assert(!crate::codec::writer_ok(format, replaced));
                    }
                }
                written
            },
            TargetFileFormat::Yaml => {
                let n = match crate::codec::parse_yaml(content) {
                    Ok(n) => n,
                    Err(e) => {
                        return Err(e);
                    },
                };
                let replaced = crate::tree::replace_in_node(&n, old_path, new_path);
                let written = crate::codec::to_yaml_text(&replaced);
                proof {
                    if written is Err {
                        assert(node_view(replaced) == crate::tree::replace_tree(
                            format_doc(format, content@)->0,
                            old_path@,
                            new_path@,
                        ));
                        assert(!crate::codec::writer_ok(format, replaced));
                    }
                }
                written
            },
            TargetFileFormat::Toml => {
                let n = match crate::codec::parse_toml(content) {
                    Ok(n) => n,
                    Err(e) => {
                        return Err(e);
                    },
                };
                let replaced = crate::tree::replace_in_node(&n, old_path, new_path);
                let written = crate::codec::to_toml_text(&replaced);
                proof {
                    if written is Err {
                        assert(node_view(replaced) == crate::tree::replace_tree(
                            format_doc(format, content@)->0,
                            old_path@,
                            new_path@,
                        ));
                        assert(!crate::codec::writer_ok(format, replaced));
                    }
                }
                written
            },
            TargetFileFormat::Csv => Ok(Self::update_csv_content(content, old_path, new_path)),
        }
    }

    /// Records a rename in the entries: every entry whose path equals
    /// `old_path` is re-pointed at `new_path`, remembers where it used to
    /// be, and is probed for existence at the new path; other entries are
    /// untouched. The file content itself is rewritten separately with
    /// `rewrite_content`.
    pub fn update_path(&mut self, old_path: &str, new_path: &str)
        ensures
            final(self)@.path == old(self)@.path,
            final(self)@.format == old(self)@.format,
            final(self)@.paths.len() == old(self)@.paths.len(),
            forall|i: int|
                0 <= i < old(self)@.paths.len() ==> {
                    let e0 = old(self)@.paths[i];
                    let e1 = #[trigger] final(self)@.paths[i];
                    if e0.path == old_path@ {
                        e1.path == new_path@ && e1.last_known_path == Some(e0.path)
                    } else {
                        e1 == e0
                    }
                },
            forall|i: int, j: int|
                0 <= i < old(self)@.paths.len() && 0 <= j < old(self)@.paths.len()
                    && old(self)@.paths[i].path == old_path@
                    && old(self)@.paths[j].path == old_path@
                    ==> #[trigger] final(self)@.paths[i].exists
                    == #[trigger] final(self)@.paths[j].exists,
    {
        let e = path_exists(new_path);
        let mut updated: Vec<PathEntry> = Vec::new();
        let n = self.paths.len();
        let mut i: usize = 0;
        while i < n
            invariant
                n == self.paths@.len(),
                i <= n,
                updated@.len() == i,
                forall|j: int|
                    0 <= j < i ==> {
                        let e0 = self@.paths[j];
                        let e1 = (#[trigger] updated@[j])@;
                        if e0.path == old_path@ {
                            e1.path == new_path@ && e1.last_known_path == Some(e0.path)
                                && e1.exists == e
                        } else {
                            e1 == e0
                        }
                    },
        decreases n - i,
        {
            let entry = &self.paths[i];
            if str_eq(entry.path.as_str(), old_path) {
                updated.push(
                    PathEntry {
                        path: String::from_str(new_path),
                        exists: e,
                        last_known_path: Some(entry.path.clone()),
                    },
                );
            } else {
                let last: Option<String> = match &entry.last_known_path {
                    Some(p) => Some(p.clone()),
                    None => None,
                };
                updated.push(
                    PathEntry { path: entry.path.clone(), exists: entry.exists, last_known_path: last },
                );
            }
            i = i + 1;
        }
        self.paths = updated;
    }

    /// Marks every entry for `path` as no longer present on disk; nothing
    /// else changes, and no file content is touched.
    pub fn mark_path_deleted(&mut self, path: &str) -> (r: Result<(), SyncError>)
        ensures
            r is Ok,
            final(self)@.path == old(self)@.path,
            final(self)@.format == old(self)@.format,
            final(self)@.paths.len() == old(self)@.paths.len(),
            forall|i: int|
                0 <= i < old(self)@.paths.len() ==> {
                    let e0 = old(self)@.paths[i];
                    let e1 = #[trigger] final(self)@.paths[i];
                    if e0.path == path@ {
                        e1 == PathEntryView { exists: false, ..e0 }
                    } else {
                        e1 == e0
                    }
                },
    {
        self.set_existence(path, false);
        Ok(())
    }

    /// Marks every entry for `path` as present on disk again; nothing else
    /// changes, and no file content is touched.
    pub fn mark_path_restored(&mut self, path: &str) -> (r: Result<(), SyncError>)
        ensures
            r is Ok,
            final(self)@.path == old(self)@.path,
            final(self)@.format == old(self)@.format,
            final(self)@.paths.len() == old(self)@.paths.len(),
            forall|i: int|
                0 <= i < old(self)@.paths.len() ==> {
                    let e0 = old(self)@.paths[i];
                    let e1 = #[trigger] final(self)@.paths[i];
                    if e0.path == path@ {
                        e1 == PathEntryView { exists: true, ..e0 }
                    } else {
                        e1 == e0
                    }
                },
    {
        self.set_existence(path, true);
        Ok(())
    }

    /// Sets the existence flag of every entry for `path` to `value`.
    fn set_existence(&mut self, path: &str, value: bool)
        ensures
            final(self)@.path == old(self)@.path,
            final(self)@.format == old(self)@.format,
            final(self)@.paths.len() == old(self)@.paths.len(),
            forall|i: int|
                0 <= i < old(self)@.paths.len() ==> {
                    let e0 = old(self)@.paths[i];
                    let e1 = #[trigger] final(self)@.paths[i];
                    if e0.path == path@ {
                        e1 == PathEntryView { exists: value, ..e0 }
                    } else {
                        e1 == e0
                    }
                },
    {
        let mut updated: Vec<PathEntry> = Vec::new();
        let n = self.paths.len();
        let mut i: usize = 0;
        while i < n
            invariant
                n == self.paths@.len(),
                i <= n,
                updated@.len() == i,
                forall|j: int|
                    0 <= j < i ==> {
                        let e0 = self@.paths[j];
                        let e1 = (#[trigger] updated@[j])@;
                        if e0.path == path@ {
                            e1 == PathEntryView { exists: value, ..e0 }
                        } else {
                            e1 == e0
                        }
                    },
            decreases n - i,
        {
            let entry = &self.paths[i];
            let last: Option<String> = match &entry.last_known_path {
                Some(p) => Some(p.clone()),
                None => None,
            };
            let flag = if str_eq(entry.path.as_str(), path) {
                value
            } else {
                entry.exists
            };
            updated.push(
                PathEntry { path: entry.path.clone(), exists: flag, last_known_path: last },
            );
            i = i + 1;
        }
        self.paths = updated;
    }

    /// The row-format rewrite: keeps the header line and replaces the
    /// leading span of every data line that starts with `old_path`.
    pub fn update_csv_content(content: &str, old_path: &str, new_path: &str) -> (r: String)
        ensures
            r@ == csv_rewrite(content@, old_path@, new_path@),
    {
        let cv = to_chars(content);
        let old_v = to_chars(old_path);
        let new_v = to_chars(new_path);
        let ls = lines_chars(&cv);
        proof {
            assert(ls.deep_view().len() == ls@.len());
        }
        if ls.len() == 0 {
            let r = String::from_str(content);
            return r;
        }
        let ghost lv = ls.deep_view();
        let ghost f = |l: Seq<char>| csv_line_swap(l, old_path@, new_path@);
        let ghost target = seq![lv[0]] + lv.subrange(1, lv.len() as int).map_values(f);
        let mut kept: Vec<Vec<char>> = Vec::new();
        let head = copy_range(&ls[0], 0, ls[0].len());
        let ghost hv = head@;
        proof {
            assert(ls@[0]@ == lv[0]);
            assert(hv =~= lv[0]);
        }
        push_piece(&mut kept, head);
        proof {
            assert(kept.deep_view() == Seq::<Seq<char>>::empty() + seq![hv]);
            assert(target[0] == lv[0]);
            assert(kept.deep_view() =~= target.subrange(0, 1));
        }
        let mut i: usize = 1;
        while i < ls.len()
            invariant
                1 <= i <= ls@.len(),
                lv == ls.deep_view(),
                lv.len() == ls@.len(),
                target == seq![lv[0]] + lv.subrange(1, lv.len() as int).map_values(f),
                target.len() == lv.len(),
                f == (|l: Seq<char>| csv_line_swap(l, old_path@, new_path@)),
                old_v@ == old_path@,
                new_v@ == new_path@,
                kept.deep_view() == target.subrange(0, i as int),
            decreases ls@.len() - i,
        {
            let line = &ls[i];
            proof {
                assert(line@ == lv[i as int]);
            }
            let swapped: Vec<char> = if starts_with_chars(line, &old_v) {
                let mut s2 = copy_range(&new_v, 0, new_v.len());
                let tail = copy_range(line, old_v.len(), line.len());
                let ghost s2v = s2@;
                let mut tail2 = tail;
                s2.append(&mut tail2);
                proof {
                    assert(s2@ =~= new_path@ + line@.subrange(
                        old_path@.len() as int,
                        line@.len() as int,
                    ));
                }
                s2
            } else {
                copy_range(line, 0, line.len())
            };
            proof {
                assert(swapped@ == csv_line_swap(lv[i as int], old_path@, new_path@));
                assert(target[i as int] == lv.subrange(1, lv.len() as int).map_values(f)[i - 1]);
                assert(lv.subrange(1, lv.len() as int)[i - 1] == lv[i as int]);
                assert(target[i as int] == f(lv[i as int]));
            }
            push_piece(&mut kept, swapped);
            proof {
                assert(kept.deep_view() =~= target.subrange(0, i + 1 as int));
            }
            i = i + 1;
        }
        proof {
            assert(kept.deep_view() =~= target);
        }
        let mut joined: Vec<char> = Vec::new();
        let mut k: usize = 0;
        proof {
            assert(join_lines(target.subrange(0, 0)) == Seq::<char>::empty());
            assert(joined@ =~= join_lines(target.subrange(0, 0)));
            assert(kept.deep_view().len() == kept@.len());
        }
        while k < kept.len()
            invariant
                k <= kept@.len(),
                target == kept.deep_view(),
                target.len() == kept@.len(),
                joined@ == join_lines(target.subrange(0, k as int)),
            decreases kept@.len() - k,
        {
            let ghost j0 = joined@;
            let line = &kept[k];
            let mut piece = copy_range(line, 0, line.len());
            joined.append(&mut piece);
            joined.push('\n');
            proof {
                assert(line@ == target[k as int]);
                let pre = target.subrange(0, k as int);
                let cur = target.subrange(0, k + 1 as int);
                assert(cur =~= pre + seq![target[k as int]]);
                lemma_join_lines_concat(pre, seq![target[k as int]]);
                lemma_join_lines_singleton(target[k as int]);
                assert(joined@ =~= j0 + (target[k as int] + seq!['\n']));
                assert(joined@ =~= join_lines(cur));
            }
            k = k + 1;
        }
        proof {
            assert(target.subrange(0, target.len() as int) =~= target);
        }
        from_chars(&joined)
    }
}

} // verus!
