//! What the local web API decides about directory listings: which entries are
//! workflow files and in what order entries are shown. Reading directories
//! is left to the caller.

use vstd::prelude::*;

use crate::smap::{lemma_lex_asymmetric, lemma_lex_total, lemma_lex_transitive, lex_lt, str_lt};
use crate::text::owned;

verus! {

broadcast use vstd::seq_lib::group_to_multiset_ensures;

/// A directory listing.
pub struct FsListResponse {
    pub path: String,
    pub parent: Option<String>,
    pub entries: Vec<FsEntry>,
}

/// One entry of a listing: `kind` is `dir`, `workflow` or `file`.
pub struct FsEntry {
    pub name: String,
    pub path: String,
    pub kind: String,
}

/// Why a directory could not be listed.
pub enum FsListError {
    NotFound(String),
    NotDirectory(String),
    Io(std::io::Error),
}

impl FsListError {
    /// The human-readable description of this error.
    pub fn to_message(&self) -> (s: Option<String>)
        ensures
            match self {
                FsListError::NotFound(p) => s matches Some(m) && m@ == "path not found: "@ + p@,
                FsListError::NotDirectory(p) => s matches Some(m) && m@ == "path is not a directory: "@ + p@,
                FsListError::Io(_) => s is None,
            },
    {
        match self {
            FsListError::NotFound(p) => {
                let mut m = owned("path not found: ");
                m.append(p.as_str());
                Some(m)
            },
            FsListError::NotDirectory(p) => {
                let mut m = owned("path is not a directory: ");
                m.append(p.as_str());
                Some(m)
            },
            FsListError::Io(_) => None,
        }
    }
}

/// The extension of a file name, as `Path::extension` gives it: the text
/// after the last `.`, unless that dot starts the name.
pub open spec fn extension_of(name: Seq<char>) -> Option<Seq<char>> {
    if exists|i: int| 0 < i < name.len() && name[i] == '.' {
        let i = choose|i: int| 0 < i < name.len() && name[i] == '.' && forall|j: int| i < j < name.len() ==> name[j] != '.';
        Some(name.skip(i + 1))
    } else {
        None
    }
}

/// A file name with extension `yml` or `yaml`.
pub open spec fn is_workflow_name_spec(name: Seq<char>) -> bool {
    extension_of(name) == Some("yml"@) || extension_of(name) == Some("yaml"@)
}

/// Whether a file named `name` is a workflow YAML file (extension `yml` or
/// `yaml`).
pub fn is_workflow_name(name: &str) -> (r: bool)
    ensures
        r == is_workflow_name_spec(name@),
{
    let v = crate::text::chars_of(name);
    let n = v.len();
    let mut i = n;
    // Find the last dot.
    while i > 0 && v[i - 1] != '.'
        invariant
            i <= n == v@.len(),
            v@ == name@,
            forall|j: int| i <= j < n ==> v@[j] != '.',
        decreases i,
    {
        i -= 1;
    }
    if i <= 1 {
        proof {
            assert forall|k: int| 0 < k < name@.len() implies name@[k] != '.' by {
                if k >= i {
                } else {
                    assert(i == 1 && k == 0 || i == 0);
                }
            }
            reveal_strlit("yml");
            reveal_strlit("yaml");
        }
        return false;
    }
    let dot = i - 1;
    proof {
        assert(v@[dot as int] == '.');
        let w = choose|k: int| 0 < k < name@.len() && name@[k] == '.' && forall|j: int| k < j < name@.len() ==> name@[j] != '.';
        if w < dot {
            assert(name@[dot as int] == '.');
        } else if w > dot {
            assert(name@[w] != '.');
        }
        assert(extension_of(name@) == Some(name@.skip(dot + 1)));
    }
    let ext = crate::text::string_of_range(&v, dot + 1, n);
    proof {
        assert(ext@ =~= name@.skip(dot + 1));
    }
    crate::smap::str_eq(ext.as_str(), "yml") || crate::smap::str_eq(ext.as_str(), "yaml")
}

/// The listing kind of an entry: a directory, a workflow file or another
/// file.
pub fn entry_kind(is_dir: bool, name: &str) -> (k: &'static str)
    ensures
        k@ == if is_dir {
            "dir"@
        } else if is_workflow_name_spec(name@) {
            "workflow"@
        } else {
            "file"@
        },
{
    if is_dir {
        "dir"
    } else if is_workflow_name(name) {
        "workflow"
    } else {
        "file"
    }
}

/// Directories first, then workflow files, then everything else.
pub open spec fn kind_rank_spec(kind: Seq<char>) -> nat {
    if kind == "dir"@ {
        0
    } else if kind == "workflow"@ {
        1
    } else {
        2
    }
}

/// The rank of a listing kind.
pub fn kind_rank(kind: &str) -> (r: u8)
    ensures
        r == kind_rank_spec(kind@),
{
    if crate::smap::str_eq(kind, "dir") {
        0
    } else if crate::smap::str_eq(kind, "workflow") {
        1
    } else {
        2
    }
}

/// `a` is listed before `b`: by kind rank, then by name.
pub open spec fn entry_before(a: FsEntry, b: FsEntry) -> bool {
    kind_rank_spec(a.kind@) < kind_rank_spec(b.kind@) || (kind_rank_spec(a.kind@) == kind_rank_spec(b.kind@) && lex_lt(
        a.name@,
        b.name@,
    ))
}

/// No entry is listed after one it should precede.
pub open spec fn entries_sorted(s: Seq<FsEntry>) -> bool {
    forall|i: int, j: int| 0 <= i < j < s.len() ==> !entry_before(#[trigger] s[j], #[trigger] s[i])
}

/// `a` is listed before `b`.
fn before(a: &FsEntry, b: &FsEntry) -> (r: bool)
    ensures
        r == entry_before(*a, *b),
{
    let ra = kind_rank(a.kind.as_str());
    let rb = kind_rank(b.kind.as_str());
    ra < rb || (ra == rb && str_lt(a.name.as_str(), b.name.as_str()))
}

proof fn lemma_before_order(a: FsEntry, b: FsEntry, c: FsEntry)
    ensures
        entry_before(a, b) && entry_before(b, c) ==> entry_before(a, c),
        !entry_before(a, b) && !entry_before(b, a) ==> kind_rank_spec(a.kind@) == kind_rank_spec(b.kind@) && a.name@ == b.name@,
        !(entry_before(a, b) && entry_before(b, a)),
{
    if lex_lt(a.name@, b.name@) && lex_lt(b.name@, c.name@) {
        lemma_lex_transitive(a.name@, b.name@, c.name@);
    }
    lemma_lex_total(a.name@, b.name@);
    if lex_lt(a.name@, b.name@) {
        lemma_lex_asymmetric(a.name@, b.name@);
    }
}

/// The entries in listing order: directories, then workflow files, then
/// other files, each group by name; entries that tie keep their order.
pub fn sort_entries(v: Vec<FsEntry>) -> (r: Vec<FsEntry>)
    ensures
        entries_sorted(r@),
        r@.to_multiset() == v@.to_multiset(),
{
    let mut r: Vec<FsEntry> = Vec::new();
    let mut rest = v;
    let ghost all = rest@;
    let n = rest.len();
    let mut i: usize = 0;
    while i < n
        invariant
            i <= n == all.len(),
            rest@ == all.skip(i as int),
            entries_sorted(r@),
            r@.to_multiset() == all.take(i as int).to_multiset(),
        decreases n - i,
    {
        let x = rest.remove(0);
        proof {
            assert(all.skip(i + 1) =~= all.skip(i as int).drop_first());
            assert(all.take(i + 1) =~= all.take(i as int).push(x));
        }
        let mut p: usize = 0;
        while p < r.len() && !before(&x, &r[p])
            invariant
                p <= r.len(),
                forall|q: int| 0 <= q < p ==> !entry_before(x, #[trigger] r@[q]),
            decreases r.len() - p,
        {
            p += 1;
        }
        let ghost old_r = r@;
        r.insert(p, x);
        proof {
            let s = r@;
            assert forall|a: int, b: int| 0 <= a < b < s.len() implies !entry_before(#[trigger] s[b], #[trigger] s[a]) by {
                if b < p {
                    assert(s[a] == old_r[a] && s[b] == old_r[b]);
                } else if b == p {
                    assert(s[a] == old_r[a] && s[b] == x);
                    lemma_before_order(x, old_r[a], x);
                    if entry_before(x, old_r[a]) {
                        assert(false);
                    }
                } else if a == p {
                    assert(s[b] == old_r[b - 1] && s[a] == x);
                    assert(entry_before(x, old_r[p as int]));
                    lemma_before_order(old_r[b - 1], x, old_r[p as int]);
                    if b - 1 == p {
                        lemma_before_order(x, old_r[p as int], x);
                    }
                } else if a < p {
                    assert(s[a] == old_r[a] && s[b] == old_r[b - 1]);
                } else {
                    assert(s[a] == old_r[a - 1] && s[b] == old_r[b - 1]);
                }
            }
        }
        i += 1;
    }
    proof {
        assert(all.take(n as int) =~= all);
    }
    r
}

/// The content type served for a UI asset with extension `ext`.
pub open spec fn mime_spec(ext: Seq<char>) -> Seq<char> {
    if ext == "html"@ {
        "text/html; charset=utf-8"@
    } else if ext == "js"@ {
        "application/javascript"@
    } else if ext == "css"@ {
        "text/css"@
    } else if ext == "svg"@ {
        "image/svg+xml"@
    } else if ext == "png"@ {
        "image/png"@
    } else if ext == "ico"@ {
        "image/x-icon"@
    } else if ext == "json"@ || ext == "map"@ {
        "application/json"@
    } else if ext == "woff2"@ {
        "font/woff2"@
    } else if ext == "woff"@ {
        "font/woff"@
    } else {
        "application/octet-stream"@
    }
}

/// The content type of a UI asset by its extension.
pub fn mime_for_extension(ext: &str) -> (m: &'static str)
    ensures
        m@ == mime_spec(ext@),
{
    if crate::smap::str_eq(ext, "html") {
        "text/html; charset=utf-8"
    } else if crate::smap::str_eq(ext, "js") {
        "application/javascript"
    } else if crate::smap::str_eq(ext, "css") {
        "text/css"
    } else if crate::smap::str_eq(ext, "svg") {
        "image/svg+xml"
    } else if crate::smap::str_eq(ext, "png") {
        "image/png"
    } else if crate::smap::str_eq(ext, "ico") {
        "image/x-icon"
    } else if crate::smap::str_eq(ext, "json") || crate::smap::str_eq(ext, "map") {
        "application/json"
    } else if crate::smap::str_eq(ext, "woff2") {
        "font/woff2"
    } else if crate::smap::str_eq(ext, "woff") {
        "font/woff"
    } else {
        "application/octet-stream"
    }
}

} // verus!
