//! The directory model: entries, extension tests, the partition of a
//! directory's children, recursive file counts, and the traversal order
//! of analysis runs.
//!
//! The filesystem itself is read outside this crate; what arrives here is
//! a plain listing (names and kinds) or a whole tree of them, and every
//! ordering and partitioning decision on it is made, and proved, here.

use vstd::prelude::*;

verus! {

use crate::order::{name_le, views};

/// What kind of child a directory entry is.
#[derive(Clone, Copy, PartialEq, Eq, Structural, Debug)]
pub enum EntryKind {
    File,
    Dir,
}

/// One immediate child of a directory.
#[derive(Clone)]
pub struct DirEntry {
    pub name: String,
    pub kind: EntryKind,
}

/// The mathematical form of a `DirEntry`.
pub struct DirEntryV {
    pub name: Seq<char>,
    pub kind: EntryKind,
}

impl View for DirEntry {
    type V = DirEntryV;

    open spec fn view(&self) -> DirEntryV {
        DirEntryV { name: self.name@, kind: self.kind }
    }
}

/// The views of a sequence of entries.
pub open spec fn entry_views(es: Seq<DirEntry>) -> Seq<DirEntryV> {
    es.map_values(|e: DirEntry| e@)
}

/// The index of the last period of `s`, or a negative number when it has
/// none.
pub open spec fn last_dot(s: Seq<char>) -> int
    decreases s.len(),
{
    if s.len() == 0 {
        -1
    } else if s.last() == '.' {
        s.len() - 1
    } else {
        last_dot(s.take(s.len() - 1))
    }
}

/// The extension of a file name, after Rust's reading: the part after the
/// last period, unless there is none or the name opens with its only one.
pub open spec fn file_ext_of(name: Seq<char>) -> Option<Seq<char>> {
    let p = last_dot(name);
    if p >= 1 {
        Some(name.skip(p + 1))
    } else {
        None
    }
}

/// Whether a file name carries one of the given extensions.
pub open spec fn has_extension_in(name: Seq<char>, exts: Seq<Seq<char>>) -> bool {
    match file_ext_of(name) {
        Some(e) => exts.contains(e),
        None => false,
    }
}

/// A period at `q` with none after it is the last period.
proof fn lemma_last_dot_at(s: Seq<char>, q: int)
    requires
        0 <= q < s.len(),
        s[q] == '.',
        forall|j: int| q < j < s.len() ==> s[j] != '.',
    ensures
        last_dot(s) == q,
    decreases s.len(),
{
    if q == s.len() - 1 {
    } else {
        let t = s.take(s.len() - 1);
        assert(t[q] == '.');
        lemma_last_dot_at(t, q);
    }
}

/// Without any period there is no last one.
proof fn lemma_no_last_dot(s: Seq<char>)
    requires
        forall|j: int| 0 <= j < s.len() ==> s[j] != '.',
    ensures
        last_dot(s) == -1,
    decreases s.len(),
{
    if s.len() > 0 {
        lemma_no_last_dot(s.take(s.len() - 1));
    }
}

/// Whether the file named `f` carries one of the given extensions.
pub fn file_has_extension(f: &str, extensions: &Vec<String>) -> (r: bool)
    ensures
        r == has_extension_in(f@, views(extensions@)),
{
    let v: Vec<char> = crate::text::chars_of(f);
    let n: usize = v.len();
    let mut dot: usize = n;
    let mut k: usize = n;
    while k > 0 && dot == n
        invariant
            k <= n,
            n == v@.len(),
            dot == n ==> forall|j: int| k <= j < n ==> v@[j] != '.',
            dot != n ==> dot < n && v@[dot as int] == '.' && forall|j: int|
                dot < j < n ==> v@[j] != '.',
        decreases k,
    {
        k = k - 1;
        if v[k] == '.' {
            dot = k;
        }
    }
    if dot == n {
        proof {
            lemma_no_last_dot(v@);
        }
        false
    } else if dot == 0 {
        proof {
            lemma_last_dot_at(v@, 0);
        }
        false
    } else {
        proof {
            lemma_last_dot_at(v@, dot as int);
        }
        let ext: Vec<char> = crate::text::subrange_chars(&v, dot + 1, n);
        proof {
            assert(ext@ =~= v@.skip(dot + 1));
        }
        let mut i: usize = 0;
        while i < extensions.len()
            invariant
                i <= extensions@.len(),
                last_dot(f@) >= 1,
                ext@ == f@.skip(last_dot(f@) + 1),
                forall|j: int| 0 <= j < i ==> views(extensions@)[j] != ext@,
            decreases extensions@.len() - i,
        {
            let cand: Vec<char> = crate::text::chars_of(extensions[i].as_str());
            if crate::text::eq_chars(&ext, &cand) {
                proof {
                    assert(views(extensions@)[i as int] == ext@);
                }
                return true;
            }
            i = i + 1;
        }
        proof {
            if views(extensions@).contains(ext@) {
                let j = choose|j: int|
                    0 <= j < views(extensions@).len() && views(extensions@)[j] == ext@;
                assert(false);
            }
        }
        false
    }
}

/// The extension of the file named `f`, when it has one.
pub fn file_extension(f: &str) -> (r: Option<String>)
    ensures
        r.deep_view() == file_ext_of(f@),
{
    let v: Vec<char> = crate::text::chars_of(f);
    let n: usize = v.len();
    let mut dot: usize = n;
    let mut k: usize = n;
    while k > 0 && dot == n
        invariant
            k <= n,
            n == v@.len(),
            dot == n ==> forall|j: int| k <= j < n ==> v@[j] != '.',
            dot != n ==> dot < n && v@[dot as int] == '.' && forall|j: int|
                dot < j < n ==> v@[j] != '.',
        decreases k,
    {
        k = k - 1;
        if v[k] == '.' {
            dot = k;
        }
    }
    if dot == n {
        proof {
            lemma_no_last_dot(v@);
        }
        None
    } else if dot == 0 {
        proof {
            lemma_last_dot_at(v@, 0);
        }
        None
    } else {
        proof {
            lemma_last_dot_at(v@, dot as int);
        }
        let ext: Vec<char> = crate::text::subrange_chars(&v, dot + 1, n);
        proof {
            assert(ext@ =~= v@.skip(dot + 1));
        }
        Some(crate::text::string_of(&ext))
    }
}

/// The stem of a file name, after Rust's reading: everything before the
/// last period, unless the name would lose its opening period.
pub open spec fn rust_stem(name: Seq<char>) -> Seq<char> {
    let p = last_dot(name);
    if p >= 1 {
        name.take(p)
    } else {
        name
    }
}

/// Where a path's last component starts.
pub open spec fn comp_start(p: Seq<char>) -> int {
    if crate::sanitize::contains_char(p, '/') {
        crate::sanitize::last_slash_index(p) + 1
    } else {
        0
    }
}

/// A path with the extension of its last component replaced by `ext`:
/// the component's stem, a period, and `ext`.  A path whose last
/// component is empty is returned unchanged.
pub open spec fn with_extension(path: Seq<char>, ext: Seq<char>) -> Seq<char> {
    let k = comp_start(path);
    let name = path.skip(k);
    if name.len() == 0 {
        path
    } else {
        path.take(k) + rust_stem(name) + seq!['.'] + ext
    }
}

/// Replace the extension of a path's last component.
pub fn set_extension_path(path: &str, ext: &str) -> (r: String)
    ensures
        r@ == with_extension(path@, ext@),
{
    let v: Vec<char> = crate::text::chars_of(path);
    let n: usize = v.len();
    let mut slash: usize = n;
    let mut k: usize = n;
    while k > 0 && slash == n
        invariant
            k <= n,
            n == v@.len(),
            slash == n ==> forall|j: int| k <= j < n ==> v@[j] != '/',
            slash != n ==> slash < n && v@[slash as int] == '/' && forall|j: int|
                slash < j < n ==> v@[j] != '/',
        decreases k,
    {
        k = k - 1;
        if v[k] == '/' {
            slash = k;
        }
    }
    let start: usize = if slash == n {
        proof {
            if crate::sanitize::contains_char(v@, '/') {
                let i = choose|i: int| 0 <= i < v@.len() && v@[i] == '/';
                assert(false);
            }
            assert(comp_start(v@) == 0);
        }
        0
    } else {
        proof {
            crate::sanitize::lemma_last_slash(v@, slash as int);
        }
        slash + 1
    };
    if start == n {
        proof {
            assert(v@.skip(start as int).len() == 0);
        }
        crate::text::string_of(&v)
    } else {
        let ghost name = v@.skip(start as int);
        let mut dot: usize = n;
        let mut m: usize = n;
        while m > start && dot == n
            invariant
                start <= m <= n,
                n == v@.len(),
                start < n,
                dot == n ==> forall|j: int| m <= j < n ==> v@[j] != '.',
                dot != n ==> start <= dot < n && v@[dot as int] == '.' && forall|j: int|
                    dot < j < n ==> v@[j] != '.',
            decreases m,
        {
            m = m - 1;
            if v[m] == '.' {
                dot = m;
            }
        }
        let stem_end: usize = if dot == n || dot == start {
            proof {
                assert(forall|j: int| 0 <= j < name.len() ==> name[j] == v@[start + j]);
                if dot == n {
                    lemma_no_last_dot(name);
                } else {
                    lemma_last_dot_at(name, 0);
                }
            }
            n
        } else {
            proof {
                assert(forall|j: int| 0 <= j < name.len() ==> name[j] == v@[start + j]);
                lemma_last_dot_at(name, dot - start);
            }
            dot
        };
        proof {
            assert(v@.subrange(start as int, stem_end as int) =~= rust_stem(name));
        }
        let mut out: Vec<char> = crate::text::subrange_chars(&v, 0, stem_end);
        proof {
            assert(out@ =~= v@.take(start as int) + rust_stem(name));
        }
        out.push('.');
        let ev: Vec<char> = crate::text::chars_of(ext);
        crate::text::extend_chars(&mut out, &ev);
        proof {
            assert(out@ =~= v@.take(start as int) + rust_stem(name) + seq!['.'] + ext@);
        }
        crate::text::string_of(&out)
    }
}

/// Why a path handed in as a directory was refused.
pub enum PathError {
    DoesNotExist(String),
    NotADirectory(String),
}

impl PathError {
    /// A line for the user naming the path and the failure.
    pub fn message(&self) -> (r: String)
        ensures
            (self matches PathError::DoesNotExist(p) ==> r@ == "Path '"@ + p@
                + "' does not exist"@),
            (self matches PathError::NotADirectory(p) ==> r@ == "Path '"@ + p@
                + "' must be a directory"@),
    {
        let mut s: String = String::new();
        s.append("Path '");
        match self {
            PathError::DoesNotExist(p) => {
                s.append(p.as_str());
                s.append("' does not exist");
            },
            PathError::NotADirectory(p) => {
                s.append(p.as_str());
                s.append("' must be a directory");
            },
        }
        s
    }
}

/// Accept a path as a source directory exactly when it exists and is a
/// directory; the two observations are handed in by the caller that
/// looked at the filesystem.
pub fn validate_dir(dir: &str, exists: bool, is_dir: bool) -> (r: Result<(), PathError>)
    ensures
        r is Ok <==> exists && is_dir,
        !exists ==> (r matches Err(PathError::DoesNotExist(p)) && p@ == dir@),
        exists && !is_dir ==> (r matches Err(PathError::NotADirectory(p)) && p@ == dir@),
{
    if !exists {
        Err(PathError::DoesNotExist(dir.to_owned()))
    } else if !is_dir {
        Err(PathError::NotADirectory(dir.to_owned()))
    } else {
        Ok(())
    }
}

/// The names of the file children that carry one of the extensions, in
/// listing order.
pub open spec fn audio_names(es: Seq<DirEntryV>, exts: Seq<Seq<char>>) -> Seq<Seq<char>> {
    es.filter(|e: DirEntryV| e.kind == EntryKind::File && has_extension_in(e.name, exts)).map_values(
        |e: DirEntryV| e.name,
    )
}

/// The names of the file children that do not, in listing order.
pub open spec fn other_names(es: Seq<DirEntryV>, exts: Seq<Seq<char>>) -> Seq<Seq<char>> {
    es.filter(
        |e: DirEntryV| e.kind == EntryKind::File && !has_extension_in(e.name, exts),
    ).map_values(|e: DirEntryV| e.name)
}

/// The names of the subdirectory children, in listing order.
pub open spec fn subdir_names(es: Seq<DirEntryV>) -> Seq<Seq<char>> {
    es.filter(|e: DirEntryV| e.kind == EntryKind::Dir).map_values(|e: DirEntryV| e.name)
}

/// The partition of one directory's children: audio files, other files
/// and subdirectories, each group sorted.
pub struct DirectoryEntrySet {
    pub audio_files: Vec<String>,
    pub other_files: Vec<String>,
    pub subdirs: Vec<String>,
}

/// Partition a directory's children into audio files, other files and
/// subdirectories.  Every child lands in exactly one group by its kind
/// and extension; files are ordered naturally when `natural` is set (the
/// copy order) and lexicographically otherwise (the analysis order);
/// subdirectories are always ordered lexicographically.
pub fn walk(entries: &Vec<DirEntry>, audio_extensions: &Vec<String>, natural: bool) -> (r:
    DirectoryEntrySet)
    ensures
        views(r.audio_files@).to_multiset() == audio_names(
            entry_views(entries@),
            views(audio_extensions@),
        ).to_multiset(),
        views(r.other_files@).to_multiset() == other_names(
            entry_views(entries@),
            views(audio_extensions@),
        ).to_multiset(),
        views(r.subdirs@).to_multiset() == subdir_names(entry_views(entries@)).to_multiset(),
        vstd::relations::sorted_by(views(r.audio_files@), crate::order::name_leq(natural)),
        vstd::relations::sorted_by(views(r.other_files@), crate::order::name_leq(natural)),
        vstd::relations::sorted_by(views(r.subdirs@), crate::order::name_leq(false)),
        views(r.audio_files@) == audio_names(entry_views(entries@), views(audio_extensions@)).sort_by(
            crate::order::name_leq(natural),
        ),
        views(r.other_files@) == other_names(entry_views(entries@), views(audio_extensions@)).sort_by(
            crate::order::name_leq(natural),
        ),
        views(r.subdirs@) == subdir_names(entry_views(entries@)).sort_by(crate::order::name_leq(false)),
{
    let ghost evs = entry_views(entries@);
    let ghost exts = views(audio_extensions@);
    let mut audio: Vec<String> = Vec::new();
    let mut other: Vec<String> = Vec::new();
    let mut dirs: Vec<String> = Vec::new();
    let mut i: usize = 0;
    while i < entries.len()
        invariant
            i <= entries@.len(),
            evs == entry_views(entries@),
            exts == views(audio_extensions@),
            views(audio@) == audio_names(evs.take(i as int), exts),
            views(other@) == other_names(evs.take(i as int), exts),
            views(dirs@) == subdir_names(evs.take(i as int)),
        decreases entries@.len() - i,
    {
        let e: &DirEntry = &entries[i];
        let ghost pre_a = views(audio@);
        let ghost pre_o = views(other@);
        let ghost pre_d = views(dirs@);
        let is_file: bool = match e.kind {
            EntryKind::File => true,
            EntryKind::Dir => false,
        };
        if is_file {
            if file_has_extension(e.name.as_str(), audio_extensions) {
                audio.push(e.name.clone());
            } else {
                other.push(e.name.clone());
            }
        } else {
            dirs.push(e.name.clone());
        }
        i = i + 1;
        proof {
            let pa = |x: DirEntryV| x.kind == EntryKind::File && has_extension_in(x.name, exts);
            let po = |x: DirEntryV| x.kind == EntryKind::File && !has_extension_in(x.name, exts);
            let x = evs[i - 1];
            assert(x == entries@[i - 1]@);
            assert(evs.take(i as int).drop_last() =~= evs.take(i - 1));
            assert(evs.take(i as int).last() == x);
            reveal_with_fuel(Seq::filter, 2);
            assert(evs.take(i as int).drop_last() == evs.take(i - 1));
            if pa(x) {
                assert(views(audio@) =~= pre_a.push(x.name));
                assert(evs.take(i as int).filter(
                    |e: DirEntryV| e.kind == EntryKind::File && has_extension_in(e.name, exts),
                ) == evs.take(i - 1).filter(
                    |e: DirEntryV| e.kind == EntryKind::File && has_extension_in(e.name, exts),
                ).push(x));
                assert(audio_names(evs.take(i as int), exts) =~= pre_a.push(x.name));
                assert(other_names(evs.take(i as int), exts) =~= pre_o);
                assert(subdir_names(evs.take(i as int)) =~= pre_d);
            } else if po(x) {
                assert(views(other@) =~= pre_o.push(x.name));
                assert(audio_names(evs.take(i as int), exts) =~= pre_a);
                assert(other_names(evs.take(i as int), exts) =~= pre_o.push(x.name));
                assert(subdir_names(evs.take(i as int)) =~= pre_d);
            } else {
                assert(x.kind == EntryKind::Dir);
                assert(views(dirs@) =~= pre_d.push(x.name));
                assert(audio_names(evs.take(i as int), exts) =~= pre_a);
                assert(other_names(evs.take(i as int), exts) =~= pre_o);
                assert(subdir_names(evs.take(i as int)) =~= pre_d.push(x.name));
            }
        }
    }
    proof {
        assert(evs.take(evs.len() as int) =~= evs);
    }
    let audio_sorted: Vec<String> = crate::order::sort_names(audio, natural);
    let other_sorted: Vec<String> = crate::order::sort_names(other, natural);
    let dirs_sorted: Vec<String> = crate::order::sort_names(dirs, false);
    proof {
        crate::order::lemma_name_le_total_ordering(natural);
        crate::order::lemma_name_le_total_ordering(false);
        audio_names(evs, exts).lemma_sort_by_ensures(crate::order::name_leq(natural));
        other_names(evs, exts).lemma_sort_by_ensures(crate::order::name_leq(natural));
        subdir_names(evs).lemma_sort_by_ensures(crate::order::name_leq(false));
        vstd::seq_lib::lemma_sorted_unique(
            views(audio_sorted@),
            audio_names(evs, exts).sort_by(crate::order::name_leq(natural)),
            crate::order::name_leq(natural),
        );
        vstd::seq_lib::lemma_sorted_unique(
            views(other_sorted@),
            other_names(evs, exts).sort_by(crate::order::name_leq(natural)),
            crate::order::name_leq(natural),
        );
        vstd::seq_lib::lemma_sorted_unique(
            views(dirs_sorted@),
            subdir_names(evs).sort_by(crate::order::name_leq(false)),
            crate::order::name_leq(false),
        );
    }
    DirectoryEntrySet { audio_files: audio_sorted, other_files: other_sorted, subdirs: dirs_sorted }
}

/// A whole directory tree, read in one pass before any planning: a node
/// is a plain file or a directory of further entries.
pub enum FsNode {
    File,
    Dir(Vec<FsEntry>),
}

/// One named node of a directory tree.
pub struct FsEntry {
    pub name: String,
    pub node: FsNode,
}

/// Whether an entry counts under the optional extension filter.
pub open spec fn entry_counted(e: FsEntry, exts: Option<Seq<Seq<char>>>) -> bool {
    match exts {
        None => true,
        Some(x) => has_extension_in(e.name@, x),
    }
}

/// The number of files at or below the entries from index `i` on, under
/// the optional extension filter.
pub open spec fn count_files_from(es: Seq<FsEntry>, i: int, exts: Option<Seq<Seq<char>>>) -> nat
    decreases es, es.len() - i,
{
    if i < 0 || i >= es.len() {
        0
    } else {
        (match es[i].node {
            FsNode::File => if entry_counted(es[i], exts) {
                1nat
            } else {
                0nat
            },
            FsNode::Dir(children) => count_files_from(children@, 0, exts),
        }) + count_files_from(es, i + 1, exts)
    }
}

fn count_files_rec(es: &Vec<FsEntry>, exts: Option<&Vec<String>>) -> (r: u64)
    requires
        count_files_from(es@, 0, match exts {
            None => None,
            Some(x) => Some(views(x@)),
        }) <= u64::MAX,
    ensures
        r == count_files_from(es@, 0, match exts {
            None => None,
            Some(x) => Some(views(x@)),
        }),
    decreases es@,
{
    let ghost gx: Option<Seq<Seq<char>>> = match exts {
        None => None,
        Some(x) => Some(views(x@)),
    };
    let mut total: u64 = 0;
    let mut i: usize = 0;
    while i < es.len()
        invariant
            i <= es@.len(),
            gx == (match exts {
                None => None::<Seq<Seq<char>>>,
                Some(x) => Some(views(x@)),
            }),
            count_files_from(es@, 0, gx) <= u64::MAX,
            total + count_files_from(es@, i as int, gx) == count_files_from(es@, 0, gx),
        decreases es@.len() - i,
    {
        proof {
            lemma_count_prefix(es@, i as int, gx);
        }
        match &es[i].node {
            FsNode::File => {
                let counted: bool = match exts {
                    None => true,
                    Some(x) => file_has_extension(es[i].name.as_str(), x),
                };
                if counted {
                    total = total + 1;
                }
            },
            FsNode::Dir(children) => {
                proof {
                    assert(count_files_from(children@, 0, gx) <= count_files_from(
                        es@,
                        i as int,
                        gx,
                    ));
                }
                let c: u64 = count_files_rec(children, exts);
                total = total + c;
            },
        }
        i = i + 1;
    }
    total
}

/// Counting from `0` splits at any index into the part before and the
/// part from there on.
proof fn lemma_count_prefix(es: Seq<FsEntry>, i: int, exts: Option<Seq<Seq<char>>>)
    requires
        0 <= i <= es.len(),
    ensures
        count_files_from(es, i, exts) <= count_files_from(es, 0, exts),
    decreases i,
{
    if i > 0 {
        lemma_count_mono(es, 0, i, exts);
    }
}

proof fn lemma_count_mono(es: Seq<FsEntry>, i: int, j: int, exts: Option<Seq<Seq<char>>>)
    requires
        0 <= i <= j <= es.len(),
    ensures
        count_files_from(es, j, exts) <= count_files_from(es, i, exts),
    decreases j - i,
{
    if i < j {
        lemma_count_mono(es, i + 1, j, exts);
    }
}

/// Count every file in the tree, recursively.
pub fn count_files(dir: &Vec<FsEntry>) -> (r: u64)
    requires
        count_files_from(dir@, 0, None) <= u64::MAX,
    ensures
        r == count_files_from(dir@, 0, None),
{
    count_files_rec(dir, None)
}

/// Count the files in the tree that carry one of the extensions.
pub fn count_files_by_extension(dir: &Vec<FsEntry>, extensions: &Vec<String>) -> (r: u64)
    requires
        count_files_from(dir@, 0, Some(views(extensions@))) <= u64::MAX,
    ensures
        r == count_files_from(dir@, 0, Some(views(extensions@))),
{
    count_files_rec(dir, Some(extensions))
}

/// `base` and `name` joined with the path separator.
pub fn path_join(base: &str, name: &str) -> (r: String)
    ensures
        r@ == base@ + seq!['/'] + name@,
{
    let mut s: String = base.to_owned();
    s.append("/");
    s.append(name);
    proof {
        reveal_strlit("/");
        assert("/"@ =~= seq!['/']);
        assert(s@ =~= base@ + seq!['/'] + name@);
    }
    s
}

/// The plain listing (name and kind) of a tree level.
pub open spec fn fs_dir_entries(es: Seq<FsEntry>) -> Seq<DirEntryV> {
    es.map_values(
        |e: FsEntry| DirEntryV {
            name: e.name@,
            kind: match e.node {
                FsNode::File => EntryKind::File,
                FsNode::Dir(_) => EntryKind::Dir,
            },
        },
    )
}

/// The first subdirectory entry called `name`, or a negative number.
pub open spec fn find_dir_index(es: Seq<FsEntry>, name: Seq<char>, i: int) -> int
    decreases es.len() - i,
{
    if i < 0 || i >= es.len() {
        -1
    } else if es[i].name@ == name && (es[i].node matches FsNode::Dir(_)) {
        i
    } else {
        find_dir_index(es, name, i + 1)
    }
}

/// What an entry search can return: nothing, or a subdirectory entry in
/// range.
proof fn lemma_find_dir_bounds(es: Seq<FsEntry>, name: Seq<char>, i: int)
    ensures
        find_dir_index(es, name, i) == -1 || (i <= find_dir_index(es, name, i) < es.len()
            && es[find_dir_index(es, name, i)].name@ == name && (es[find_dir_index(
            es,
            name,
            i,
        )].node matches FsNode::Dir(_))),
    decreases es.len() - i,
{
    if 0 <= i < es.len() {
        lemma_find_dir_bounds(es, name, i + 1);
    }
}

/// The audio-file paths an analysis run visits, in its order: each
/// level's matching files first, lexicographically, then each
/// subdirectory, lexicographically, depth first.
pub open spec fn analysis_paths_spec(es: Seq<FsEntry>, base: Seq<char>, exts: Seq<Seq<char>>) -> Seq<
    Seq<char>,
>
    decreases es, subdir_names(fs_dir_entries(es)).sort_by(crate::order::name_leq(false)).len() + 1,
{
    let anames = audio_names(fs_dir_entries(es), exts).sort_by(crate::order::name_leq(false));
    let dnames = subdir_names(fs_dir_entries(es)).sort_by(crate::order::name_leq(false));
    anames.map_values(|n: Seq<char>| base + seq!['/'] + n) + analysis_dirs(es, dnames, 0, base, exts)
}

/// The paths contributed by the subdirectories from `k` on.
pub open spec fn analysis_dirs(
    es: Seq<FsEntry>,
    dnames: Seq<Seq<char>>,
    k: int,
    base: Seq<char>,
    exts: Seq<Seq<char>>,
) -> Seq<Seq<char>>
    decreases es, dnames.len() - k,
    via analysis_dirs_decreases
{
    if k < 0 || k >= dnames.len() {
        Seq::empty()
    } else {
        let idx = find_dir_index(es, dnames[k], 0);
        let here = if idx >= 0 {
            match es[idx].node {
                FsNode::Dir(children) => analysis_paths_spec(
                    children@,
                    base + seq!['/'] + dnames[k],
                    exts,
                ),
                FsNode::File => Seq::empty(),
            }
        } else {
            Seq::empty()
        };
        here + analysis_dirs(es, dnames, k + 1, base, exts)
    }
}

#[via_fn]
proof fn analysis_dirs_decreases(
    es: Seq<FsEntry>,
    dnames: Seq<Seq<char>>,
    k: int,
    base: Seq<char>,
    exts: Seq<Seq<char>>,
) {
    if 0 <= k < dnames.len() {
        let idx = find_dir_index(es, dnames[k], 0);
        lemma_find_dir_bounds(es, dnames[k], 0);
        if idx >= 0 {
            vstd::seq::axiom_seq_index_decreases(es, idx);
            match es[idx].node {
                FsNode::Dir(children) => {
                    vstd::std_specs::vec::axiom_vec_decreases_to_view(children);
                    assert(decreases_to!(es[idx] => es[idx].node));
                    assert(decreases_to!(es => children@));
                },
                FsNode::File => {},
            }
        }
    }
}

/// The audio-file paths an analysis run visits, in traversal order.
pub fn analysis_paths(es: &Vec<FsEntry>, base: &str, audio_extensions: &Vec<String>) -> (r: Vec<
    String,
>)
    ensures
        views(r@) == analysis_paths_spec(es@, base@, views(audio_extensions@)),
    decreases es@,
{
    let ghost exts = views(audio_extensions@);
    let mut listing: Vec<DirEntry> = Vec::new();
    let mut i: usize = 0;
    while i < es.len()
        invariant
            i <= es@.len(),
            entry_views(listing@) == fs_dir_entries(es@.take(i as int)),
        decreases es@.len() - i,
    {
        let kind: EntryKind = match &es[i].node {
            FsNode::File => EntryKind::File,
            FsNode::Dir(_) => EntryKind::Dir,
        };
        let ghost pre_listing = listing@;
        let entry: DirEntry = DirEntry { name: es[i].name.clone(), kind };
        let ghost ev = entry@;
        proof {
            assert(es@.take(i + 1)[i as int] == es@[i as int]);
            assert(ev == fs_dir_entries(es@.take(i + 1))[i as int]);
        }
        listing.push(entry);
        i = i + 1;
        proof {
            assert(entry_views(pre_listing).len() == pre_listing.len());
            assert(fs_dir_entries(es@.take(i - 1)).len() == i - 1);
            assert(pre_listing.len() == i - 1);
            assert(listing@.len() == pre_listing.len() + 1);
            assert(listing@.len() == i);
            assert(fs_dir_entries(es@.take(i as int)).len() == i);
            assert forall|j: int| 0 <= j < listing@.len() implies entry_views(listing@)[j]
                == fs_dir_entries(es@.take(i as int))[j] by {
                if j < pre_listing.len() {
                    assert(listing@[j] == pre_listing[j]);
                    assert(entry_views(pre_listing)[j] == fs_dir_entries(es@.take(i - 1))[j]);
                    assert(es@.take(i - 1)[j] == es@.take(i as int)[j]);
                } else {
                    assert(listing@[j]@ == ev);
                    assert(es@.take(i as int) == es@.take(i - 1 + 1));
                }
            }
            assert(entry_views(listing@) =~= fs_dir_entries(es@.take(i as int)));
        }
    }
    proof {
        assert(es@.take(es@.len() as int) =~= es@);
    }
    let set: DirectoryEntrySet = walk(&listing, audio_extensions, false);
    let ghost anames = audio_names(fs_dir_entries(es@), exts).sort_by(crate::order::name_leq(false));
    let ghost dnames = subdir_names(fs_dir_entries(es@)).sort_by(crate::order::name_leq(false));
    let mut out: Vec<String> = Vec::new();
    proof {
        assert(views(out@) =~= anames.map_values(|n: Seq<char>| base@ + seq!['/'] + n).take(0));
    }
    let mut a: usize = 0;
    while a < set.audio_files.len()
        invariant
            a <= set.audio_files@.len(),
            views(set.audio_files@) == anames,
            views(out@) == anames.map_values(|n: Seq<char>| base@ + seq!['/'] + n).take(a as int),
        decreases set.audio_files@.len() - a,
    {
        let ghost pre_out = views(out@);
        let p: String = path_join(base, set.audio_files[a].as_str());
        proof {
            assert(views(set.audio_files@)[a as int] == anames[a as int]);
            assert(p@ == anames.map_values(|n: Seq<char>| base@ + seq!['/'] + n)[a as int]);
        }
        out.push(p);
        a = a + 1;
        proof {
            assert(views(out@) =~= pre_out.push(
                anames.map_values(|n: Seq<char>| base@ + seq!['/'] + n)[a - 1],
            ));
            assert(views(out@) =~= anames.map_values(|n: Seq<char>| base@ + seq!['/'] + n).take(
                a as int,
            ));
        }
    }
    proof {
        assert(anames.map_values(|n: Seq<char>| base@ + seq!['/'] + n).take(
            anames.len() as int,
        ) =~= anames.map_values(|n: Seq<char>| base@ + seq!['/'] + n));
        assert(views(out@) == anames.map_values(|n: Seq<char>| base@ + seq!['/'] + n));
    }
    let mut k: usize = 0;
    while k < set.subdirs.len()
        invariant
            k <= set.subdirs@.len(),
            views(set.subdirs@) == dnames,
            exts == views(audio_extensions@),
            views(out@) + analysis_dirs(es@, dnames, k as int, base@, exts)
                == analysis_paths_spec(es@, base@, exts),
        decreases set.subdirs@.len() - k,
    {
        let dname: &String = &set.subdirs[k];
        let mut j: usize = 0;
        while j < es.len()
            invariant
                j <= es@.len(),
                find_dir_index(es@, dname@, 0) == find_dir_index(es@, dname@, j as int),
            ensures
                j <= es@.len(),
                j < es@.len() ==> find_dir_index(es@, dname@, 0) == j,
                j == es@.len() ==> find_dir_index(es@, dname@, 0) == -1,
            decreases es@.len() - j,
        {
            let is_match: bool = match &es[j].node {
                FsNode::Dir(_) => es[j].name == *dname,
                FsNode::File => false,
            };
            if is_match {
                break ;
            }
            j = j + 1;
        }
        let idx: usize = j;
        let ghost here = analysis_dirs(es@, dnames, k as int, base@, exts);
        proof {
            lemma_find_dir_bounds(es@, dname@, 0);
        }
        if idx < es.len() {
            match &es[idx].node {
                FsNode::Dir(children) => {
                    let sub_base: String = path_join(base, dname.as_str());
                    let sub: Vec<String> = analysis_paths(
                        children,
                        sub_base.as_str(),
                        audio_extensions,
                    );
                    let ghost pre = views(out@);
                    let mut s: Vec<String> = sub;
                    let ghost subv = views(s@);
                    out.append(&mut s);
                    proof {
                        assert(views(out@) =~= pre + subv);
                        assert(views(out@) + analysis_dirs(es@, dnames, k + 1, base@, exts) =~= (
                        pre + (subv + analysis_dirs(es@, dnames, k + 1, base@, exts))));
                    }
                },
                FsNode::File => {
                    proof {
                        lemma_find_dir_bounds(es@, dname@, 0);
                        assert(false);
                    }
                },
            }
        } else {
            proof {
                assert(find_dir_index(es@, dname@, 0) == -1);
            }
        }
        k = k + 1;
    }
    proof {
        assert(analysis_dirs(es@, dnames, set.subdirs@.len() as int, base@, exts) =~= Seq::<
            Seq<char>,
        >::empty());
        assert(views(out@) =~= analysis_paths_spec(es@, base@, exts));
    }
    out
}

/// Every child of a directory stands in exactly one of the three groups:
/// together they are the whole listing.
pub proof fn lemma_walk_partition(es: Seq<DirEntryV>, exts: Seq<Seq<char>>)
    ensures
        audio_names(es, exts).to_multiset().add(other_names(es, exts).to_multiset()).add(
            subdir_names(es).to_multiset(),
        ) == es.map_values(|e: DirEntryV| e.name).to_multiset(),
    decreases es.len(),
{
    broadcast use vstd::seq_lib::group_to_multiset_ensures;

    let pa = |x: DirEntryV| x.kind == EntryKind::File && has_extension_in(x.name, exts);
    let po = |x: DirEntryV| x.kind == EntryKind::File && !has_extension_in(x.name, exts);
    let pd = |x: DirEntryV| x.kind == EntryKind::Dir;
    if es.len() == 0 {
        assert(audio_names(es, exts).to_multiset().add(other_names(es, exts).to_multiset()).add(
            subdir_names(es).to_multiset(),
        ) =~= es.map_values(|e: DirEntryV| e.name).to_multiset());
    } else {
        let pre = es.drop_last();
        let x = es.last();
        lemma_walk_partition(pre, exts);
        reveal_with_fuel(Seq::filter, 2);
        assert(es.map_values(|e: DirEntryV| e.name) =~= pre.map_values(
            |e: DirEntryV| e.name,
        ).push(x.name));
        if pa(x) {
            assert(audio_names(es, exts) =~= audio_names(pre, exts).push(x.name));
            assert(other_names(es, exts) =~= other_names(pre, exts));
            assert(subdir_names(es) =~= subdir_names(pre));
        } else if po(x) {
            assert(audio_names(es, exts) =~= audio_names(pre, exts));
            assert(other_names(es, exts) =~= other_names(pre, exts).push(x.name));
            assert(subdir_names(es) =~= subdir_names(pre));
        } else {
            assert(x.kind == EntryKind::Dir);
            assert(audio_names(es, exts) =~= audio_names(pre, exts));
            assert(other_names(es, exts) =~= other_names(pre, exts));
            assert(subdir_names(es) =~= subdir_names(pre).push(x.name));
        }
        assert(audio_names(es, exts).to_multiset().add(other_names(es, exts).to_multiset()).add(
            subdir_names(es).to_multiset(),
        ) =~= es.map_values(|e: DirEntryV| e.name).to_multiset());
    }
}

} // verus!
