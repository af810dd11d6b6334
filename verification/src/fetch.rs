//! Remote `uses:` references (`owner/repo[/subpath][@rev]`) and the layout of
//! the local cache they are fetched into.

use vstd::prelude::*;
use vstd::string::*;

use crate::text::{chars_of, has_prefix, join, owned, push_char, string_of, string_of_range, views};

verus! {

#[verifier::external_type_specification]
#[verifier::external_body]
pub struct ExIoError(std::io::Error);

/// A GitHub-hosted action or reusable-workflow reference.
#[derive(Debug, PartialEq, Eq)]
pub struct RemoteRef {
    pub owner: String,
    pub repo: String,
    pub subpath: Option<String>,
    pub rev: String,
    pub raw: String,
}

impl Clone for RemoteRef {
    fn clone(&self) -> (r: Self)
        ensures
            r == *self,
    {
        RemoteRef {
            owner: self.owner.clone(),
            repo: self.repo.clone(),
            subpath: match &self.subpath {
                Some(p) => Some(p.clone()),
                None => None,
            },
            rev: self.rev.clone(),
            raw: self.raw.clone(),
        }
    }
}

/// The `uses:` text that is not an owner/repository reference.
#[derive(Debug, PartialEq, Eq)]
pub struct ParseRemoteRefError {
    pub uses: String,
}

impl ParseRemoteRefError {
    /// The human-readable description of this error.
    pub fn to_message(&self) -> (s: String)
        ensures
            s@ == "`"@ + self.uses@ + "` is not an owner/repository remote uses reference"@,
    {
        let mut s = owned("`");
        s.append(self.uses.as_str());
        s.append("` is not an owner/repository remote uses reference");
        s
    }
}

/// Failure to prepare the remote uses cache.
#[derive(Debug)]
pub enum FetchError {
    Cache(std::io::Error),
}

/// Result of ensuring one remote repository revision exists in the cache.
#[derive(Debug, PartialEq, Eq)]
pub enum FetchOutcome {
    Cached { remote: RemoteRef, path: String },
    Fetched { remote: RemoteRef, path: String },
    Failed { remote: RemoteRef, error: String },
}

/// A repository path segment: nonempty, made of ASCII letters, digits, `-`,
/// `_` and `.`.
pub open spec fn valid_segment_spec(s: Seq<char>) -> bool {
    s.len() > 0 && forall|i: int| 0 <= i < s.len() ==> safe_char(#[trigger] s[i])
}

/// ASCII letters, digits, `-`, `_` and `.`.
pub open spec fn safe_char(c: char) -> bool {
    ('a' <= c && c <= 'z') || ('A' <= c && c <= 'Z') || ('0' <= c && c <= '9') || c == '-' || c == '_' || c == '.'
}

fn is_safe_char(c: char) -> (r: bool)
    ensures
        r == safe_char(c),
{
    ('a' <= c && c <= 'z') || ('A' <= c && c <= 'Z') || ('0' <= c && c <= '9') || c == '-' || c == '_' || c == '.'
}

fn valid_segment(s: &Vec<char>) -> (r: bool)
    ensures
        r == valid_segment_spec(s@),
{
    if s.len() == 0 {
        return false;
    }
    let mut i: usize = 0;
    while i < s.len()
        invariant
            i <= s.len(),
            forall|k: int| 0 <= k < i ==> safe_char(#[trigger] s@[k]),
        decreases s.len() - i,
    {
        if !is_safe_char(s[i]) {
            return false;
        }
        i += 1;
    }
    true
}

/// Index of the first `c` in `s`.
pub open spec fn first_index(s: Seq<char>, c: char) -> Option<int>
    decreases s.len(),
{
    if s.len() == 0 {
        None
    } else if s[0] == c {
        Some(0)
    } else {
        match first_index(s.drop_first(), c) {
            Some(i) => Some(i + 1),
            None => None,
        }
    }
}

/// Index of the last `c` in `s`.
pub open spec fn last_index(s: Seq<char>, c: char) -> Option<int>
    decreases s.len(),
{
    if s.len() == 0 {
        None
    } else if s.last() == c {
        Some(s.len() - 1)
    } else {
        last_index(s.drop_last(), c)
    }
}

pub proof fn lemma_first_index(s: Seq<char>, c: char)
    ensures
        first_index(s, c) matches Some(i) ==> 0 <= i < s.len() && s[i] == c
            && forall|k: int| 0 <= k < i ==> s[k] != c,
        first_index(s, c) is None ==> forall|k: int| 0 <= k < s.len() ==> s[k] != c,
    decreases s.len(),
{
    if s.len() > 0 && s[0] != c {
        lemma_first_index(s.drop_first(), c);
        assert forall|k: int| 0 < k < s.len() implies s[k] == s.drop_first()[k - 1] by {}
    }
}

pub proof fn lemma_last_index(s: Seq<char>, c: char)
    ensures
        last_index(s, c) matches Some(i) ==> 0 <= i < s.len() && s[i] == c
            && forall|k: int| i < k < s.len() ==> s[k] != c,
        last_index(s, c) is None ==> forall|k: int| 0 <= k < s.len() ==> s[k] != c,
    decreases s.len(),
{
    if s.len() > 0 && s.last() != c {
        lemma_last_index(s.drop_last(), c);
        assert forall|k: int| 0 <= k < s.len() - 1 implies s[k] == s.drop_last()[k] by {}
    }
}

pub proof fn lemma_first_index_unique(s: Seq<char>, c: char, i: int)
    requires
        0 <= i < s.len(),
        s[i] == c,
        forall|k: int| 0 <= k < i ==> s[k] != c,
    ensures
        first_index(s, c) == Some(i),
    decreases s.len(),
{
    if i > 0 {
        lemma_first_index_unique(s.drop_first(), c, i - 1);
    }
}

pub proof fn lemma_first_index_none(s: Seq<char>, c: char)
    requires
        forall|k: int| 0 <= k < s.len() ==> s[k] != c,
    ensures
        first_index(s, c) is None,
    decreases s.len(),
{
    if s.len() > 0 {
        lemma_first_index_none(s.drop_first(), c);
    }
}

pub proof fn lemma_last_index_unique(s: Seq<char>, c: char, i: int)
    requires
        0 <= i < s.len(),
        s[i] == c,
        forall|k: int| i < k < s.len() ==> s[k] != c,
    ensures
        last_index(s, c) == Some(i),
    decreases s.len(),
{
    if i < s.len() - 1 {
        lemma_last_index_unique(s.drop_last(), c, i);
    }
}

pub proof fn lemma_last_index_none(s: Seq<char>, c: char)
    requires
        forall|k: int| 0 <= k < s.len() ==> s[k] != c,
    ensures
        last_index(s, c) is None,
    decreases s.len(),
{
    if s.len() > 0 {
        lemma_last_index_none(s.drop_last(), c);
    }
}

/// `s` split at every `c` (as `str::split` with a `char` separator).
pub open spec fn split_on(s: Seq<char>, c: char) -> Seq<Seq<char>>
    decreases s.len(),
{
    match first_index(s, c) {
        None => seq![s],
        Some(i) => {
            proof {
                lemma_first_index(s, c);
            }
            seq![s.subrange(0, i)] + split_on(s.subrange(i + 1, s.len() as int), c)
        },
    }
}

/// What [`RemoteRef::parse`] accepts: owner, repository, subpath (when more
/// segments follow) and revision of `uses`, or `None` for a local path, a
/// `docker://` image, an empty location or revision, fewer than two segments,
/// or a segment that is not a valid segment (or, after the repository, is `.`
/// or `..`). Without `@` the revision is `HEAD`; with one, the last `@`
/// separates location and revision.
pub open spec fn parse_remote_spec(uses: Seq<char>) -> Option<(Seq<char>, Seq<char>, Option<Seq<char>>, Seq<char>)> {
    if has_prefix(uses, seq!['.', '/']) || has_prefix(uses, seq!['.', 'g', 'i', 't', 'h', 'u', 'b', '/'])
        || has_prefix(uses, seq!['d', 'o', 'c', 'k', 'e', 'r', ':', '/', '/']) {
        None
    } else {
        let (loc, rev) = match last_index(uses, '@') {
            Some(i) => (uses.subrange(0, i), uses.subrange(i + 1, uses.len() as int)),
            None => (uses, seq!['H', 'E', 'A', 'D']),
        };
        parse_location(loc, rev)
    }
}

/// A segment not allowed after the repository: invalid, `.` or `..`.
pub open spec fn bad_subpath_segment(s: Seq<char>) -> bool {
    !valid_segment_spec(s) || s == seq!['.'] || s == seq!['.', '.']
}

/// The part of [`parse_remote_spec`] after the location and revision are
/// split apart.
pub open spec fn parse_location(loc: Seq<char>, rev: Seq<char>) -> Option<(Seq<char>, Seq<char>, Option<Seq<char>>, Seq<char>)> {
    let segs = split_on(loc, '/');
    if loc.len() == 0 || rev.len() == 0 {
        None
    } else if segs.len() < 2 || !valid_segment_spec(segs[0]) || !valid_segment_spec(segs[1]) {
        None
    } else {
        let rem = segs.skip(2);
        if exists|k: int| 0 <= k < rem.len() && bad_subpath_segment(#[trigger] rem[k]) {
            None
        } else {
            Some((segs[0], segs[1], if rem.len() == 0 { None } else { Some(join(rem, seq!['/'])) }, rev))
        }
    }
}

fn starts_with_chars(v: &Vec<char>, p: &Vec<char>) -> (r: bool)
    ensures
        r == has_prefix(v@, p@),
{
    if p.len() > v.len() {
        return false;
    }
    let mut i: usize = 0;
    while i < p.len()
        invariant
            i <= p.len() <= v.len(),
            forall|k: int| 0 <= k < i ==> v@[k] == p@[k],
        decreases p.len() - i,
    {
        if v[i] != p[i] {
            assert(v@.subrange(0, p.len() as int)[i as int] != p@[i as int]);
            return false;
        }
        i += 1;
    }
    assert(v@.subrange(0, p.len() as int) =~= p@);
    true
}

/// The segments of `v` split at `/`.
pub(crate) fn split_slash(v: &Vec<char>) -> (segs: Vec<Vec<char>>)
    ensures
        segs@.len() == split_on(v@, '/').len(),
        forall|k: int| 0 <= k < segs@.len() ==> (#[trigger] segs@[k])@ == split_on(v@, '/')[k],
{
    let mut segs: Vec<Vec<char>> = Vec::new();
    let mut cur: Vec<char> = Vec::new();
    let mut i: usize = 0;
    let mut start: usize = 0;
    assert(v@.subrange(0, v@.len() as int) =~= v@);
    while i < v.len()
        invariant
            start <= i <= v.len(),
            cur@ == v@.subrange(start as int, i as int),
            forall|k: int| start <= k < i ==> v@[k] != '/',
            ({
                let done = Seq::new(segs@.len(), |k: int| segs@[k]@);
                done + split_on(v@.subrange(start as int, v@.len() as int), '/') == split_on(v@, '/')
            }),
        decreases v.len() - i,
    {
        if v[i] == '/' {
            proof {
                let rest = v@.subrange(start as int, v@.len() as int);
                lemma_first_index_unique(rest, '/', i - start);
                assert(rest.subrange(0, i - start) =~= cur@);
                assert(rest.subrange(i - start + 1, rest.len() as int) =~= v@.subrange(i + 1, v@.len() as int));
            }
            let ghost before = Seq::new(segs@.len(), |k: int| segs@[k]@);
            segs.push(cur);
            cur = Vec::new();
            i += 1;
            start = i;
            proof {
                let done = Seq::new(segs@.len(), |k: int| segs@[k]@);
                assert(done =~= before.push(segs@.last()@));
                assert(cur@ =~= v@.subrange(start as int, i as int));
            }
        } else {
            cur.push(v[i]);
            i += 1;
            assert(cur@ =~= v@.subrange(start as int, i as int));
        }
    }
    proof {
        let rest = v@.subrange(start as int, v@.len() as int);
        assert(rest =~= cur@);
        lemma_first_index_none(rest, '/');
    }
    let ghost before = Seq::new(segs@.len(), |k: int| segs@[k]@);
    segs.push(cur);
    proof {
        let done = Seq::new(segs@.len(), |k: int| segs@[k]@);
        assert(done =~= before.push(segs@.last()@));
        assert(done =~= split_on(v@, '/'));
    }
    segs
}

fn is_dot_or_dotdot(s: &Vec<char>) -> (r: bool)
    ensures
        r == (s@ == seq!['.'] || s@ == seq!['.', '.']),
{
    if s.len() == 1 {
        let r = s[0] == '.';
        assert(r ==> s@ =~= seq!['.']);
        r
    } else if s.len() == 2 {
        let r = s[0] == '.' && s[1] == '.';
        assert(r ==> s@ =~= seq!['.', '.']);
        r
    } else {
        false
    }
}

/// Index of the last `@` of `v`.
fn last_at(v: &Vec<char>) -> (r: Option<usize>)
    ensures
        match (r, last_index(v@, '@')) {
            (Some(a), Some(b)) => a as int == b,
            (None, None) => true,
            _ => false,
        },
{
    let mut i: usize = v.len();
    while i > 0
        invariant
            i <= v.len(),
            forall|k: int| i <= k < v.len() ==> v@[k] != '@',
        decreases i,
    {
        if v[i - 1] == '@' {
            proof {
                lemma_last_index_unique(v@, '@', i - 1);
            }
            return Some(i - 1);
        }
        i -= 1;
    }
    proof {
        lemma_last_index_none(v@, '@');
    }
    None
}

/// Location and revision of a remote reference: split at the last `@`, or the
/// whole text and `HEAD` when there is none.
fn split_revision(v: &Vec<char>) -> (r: (Vec<char>, String))
    ensures
        match last_index(v@, '@') {
            Some(i) => r.0@ == v@.subrange(0, i) && r.1@ == v@.subrange(i + 1, v@.len() as int),
            None => r.0@ == v@ && r.1@ == seq!['H', 'E', 'A', 'D'],
        },
{
    proof {
        lemma_last_index(v@, '@');
    }
    match last_at(v) {
        Some(a) => {
            let mut loc: Vec<char> = Vec::new();
            let mut k: usize = 0;
            while k < a
                invariant
                    k <= a < v.len(),
                    loc@ == v@.subrange(0, k as int),
                decreases a - k,
            {
                loc.push(v[k]);
                k += 1;
                assert(loc@ =~= v@.subrange(0, k as int));
            }
            (loc, string_of_range(v, a + 1, v.len()))
        },
        None => {
            let head = owned("HEAD");
            proof {
                reveal_strlit("HEAD");
                assert(head@ =~= seq!['H', 'E', 'A', 'D']);
            }
            (v.clone(), head)
        },
    }
}

/// The segments `segs[from..]` joined by `/`.
fn join_segments(segs: &Vec<Vec<char>>, from: usize) -> (s: String)
    requires
        from <= segs.len(),
    ensures
        s@ == join(Seq::new(segs@.len(), |k: int| segs@[k]@).skip(from as int), seq!['/']),
{
    let ghost all = Seq::new(segs@.len(), |k: int| segs@[k]@);
    let mut s = String::new();
    let mut i = from;
    while i < segs.len()
        invariant
            from <= i <= segs.len(),
            all == Seq::new(segs@.len(), |k: int| segs@[k]@),
            s@ == join(all.subrange(from as int, i as int), seq!['/']),
        decreases segs.len() - i,
    {
        let ghost prev = s@;
        if i > from {
            push_char(&mut s, '/');
        }
        let piece = string_of(&segs[i]);
        s.append(piece.as_str());
        proof {
            let t = all.subrange(from as int, i + 1);
            assert(t.drop_last() =~= all.subrange(from as int, i as int));
            assert(t.last() == segs@[i as int]@);
            if i == from {
                assert(t =~= seq![segs@[i as int]@]);
            }
        }
        i += 1;
    }
    assert(all.subrange(from as int, segs@.len() as int) =~= all.skip(from as int));
    s
}

impl RemoteRef {
    /// `self` is what parsing `uses` gives: see [`parse_remote_spec`].
    pub open spec fn parsed_from(&self, uses: Seq<char>) -> bool {
        match parse_remote_spec(uses) {
            Some((owner, repo, sub, rev)) => {
                &&& self.owner@ == owner
                &&& self.repo@ == repo
                &&& self.rev@ == rev
                &&& self.raw@ == uses
                &&& match (self.subpath, sub) {
                    (Some(a), Some(b)) => a@ == b,
                    (None, None) => true,
                    _ => false,
                }
            },
            None => false,
        }
    }

    /// Parse a remote `uses:` reference; see [`parse_remote_spec`] for exactly
    /// what is accepted.
    pub fn parse(uses: &str) -> (r: Result<Self, ParseRemoteRefError>)
        ensures
            match r {
                Ok(rr) => rr.parsed_from(uses@),
                Err(e) => parse_remote_spec(uses@) is None && e.uses@ == uses@,
            },
    {
        let v = chars_of(uses);
        let invalid = ParseRemoteRefError { uses: owned(uses) };
        if starts_with_chars(&v, &vec!['.', '/']) || starts_with_chars(&v, &vec!['.', 'g', 'i', 't', 'h', 'u', 'b', '/'])
            || starts_with_chars(&v, &vec!['d', 'o', 'c', 'k', 'e', 'r', ':', '/', '/']) {
            return Err(invalid);
        }
        let (loc, rev) = split_revision(&v);
        assert(parse_remote_spec(uses@) == parse_location(loc@, rev@));
        if loc.len() == 0 || rev.as_str().is_empty() {
            return Err(invalid);
        }
        let segs = split_slash(&loc);
        if segs.len() < 2 || !valid_segment(&segs[0]) || !valid_segment(&segs[1]) {
            return Err(invalid);
        }
        let ghost rem = split_on(loc@, '/').skip(2);
        let mut k: usize = 2;
        while k < segs.len()
            invariant
                2 <= k <= segs.len(),
                segs@.len() == split_on(loc@, '/').len(),
                forall|m: int| 0 <= m < segs@.len() ==> (#[trigger] segs@[m])@ == split_on(loc@, '/')[m],
                rem == split_on(loc@, '/').skip(2),
                parse_remote_spec(uses@) == parse_location(loc@, rev@),
                loc@.len() > 0,
                rev@.len() > 0,
                invalid.uses@ == uses@,
                valid_segment_spec(split_on(loc@, '/')[0]),
                valid_segment_spec(split_on(loc@, '/')[1]),
                forall|m: int| 0 <= m < k - 2 ==> !bad_subpath_segment(#[trigger] rem[m]),
            decreases segs.len() - k,
        {
            if !valid_segment(&segs[k]) || is_dot_or_dotdot(&segs[k]) {
                assert(rem[k - 2] == segs@[k as int]@);
                assert(bad_subpath_segment(rem[k - 2]));
                return Err(invalid);
            }
            k += 1;
        }
        let subpath = if segs.len() > 2 {
            Some(join_segments(&segs, 2))
        } else {
            None
        };
        proof {
            let all = Seq::new(segs@.len(), |m: int| segs@[m]@);
            assert(all =~= split_on(loc@, '/'));
        }
        Ok(RemoteRef {
            owner: string_of(&segs[0]),
            repo: string_of(&segs[1]),
            subpath,
            rev,
            raw: owned(uses),
        })
    }

    /// `<cache_root>/gh/<owner>/<repo>/<sanitized rev>`.
    pub open spec fn cache_path_spec(&self, cache_root: Seq<char>) -> Seq<char> {
        path_join(path_join(path_join(path_join(cache_root, seq!['g', 'h']), self.owner@), self.repo@), sanitized(
            self.rev@))
    }

    /// The cache path, joined with `subpath` when there is one.
    pub open spec fn target_path_spec(&self, cache_root: Seq<char>) -> Seq<char> {
        match self.subpath {
            Some(sub) => path_join(self.cache_path_spec(cache_root), sub@),
            None => self.cache_path_spec(cache_root),
        }
    }

    /// Repository root of this revision under `cache_root`:
    /// `<cache_root>/gh/<owner>/<repo>/<sanitized rev>`.
    pub fn cache_path(&self, cache_root: &str) -> (p: String)
        ensures
            p@ == self.cache_path_spec(cache_root@),
    {
        let a = join_path(cache_root, "gh");
        proof {
            reveal_strlit("gh");
            assert("gh"@ =~= seq!['g', 'h']);
        }
        let b = join_path(a.as_str(), self.owner.as_str());
        let c = join_path(b.as_str(), self.repo.as_str());
        let rev = sanitize_component(self.rev.as_str());
        join_path(c.as_str(), rev.as_str())
    }

    /// Where the referenced action or workflow lives in the cache: the cache
    /// path, joined with `subpath` when there is one.
    pub fn target_path(&self, cache_root: &str) -> (p: String)
        ensures
            p@ == self.target_path_spec(cache_root@),
    {
        let root = self.cache_path(cache_root);
        match &self.subpath {
            Some(sub) => join_path(root.as_str(), sub.as_str()),
            None => root,
        }
    }
}

/// Joining a first part onto the rest puts one separator between them.
proof fn lemma_join_cons(a: Seq<char>, rest: Seq<Seq<char>>, sep: Seq<char>)
    requires
        rest.len() > 0,
    ensures
        join(seq![a] + rest, sep) == a + sep + join(rest, sep),
    decreases rest.len(),
{
    let all = seq![a] + rest;
    if rest.len() == 1 {
        assert(all.drop_last() =~= seq![a]);
        assert(all.last() == rest[0]);
        assert(join(seq![a], sep) == a);
        assert(join(rest, sep) == rest[0]);
        assert(join(all, sep) == join(all.drop_last(), sep) + sep + all.last());
    } else {
        lemma_join_cons(a, rest.drop_last(), sep);
        assert(all.drop_last() =~= seq![a] + rest.drop_last());
        assert(all.last() == rest.last());
        assert(join(all, sep) == join(all.drop_last(), sep) + sep + all.last());
        assert(join(rest, sep) == join(rest.drop_last(), sep) + sep + rest.last());
        assert(join(all, sep) =~= a + sep + join(rest, sep));
    }
}

/// Splitting on `c` and joining back with `c` gives the text again.
proof fn lemma_split_join(s: Seq<char>, c: char)
    ensures
        split_on(s, c).len() > 0,
        join(split_on(s, c), seq![c]) == s,
    decreases s.len(),
{
    lemma_first_index(s, c);
    match first_index(s, c) {
        None => {},
        Some(i) => {
            let tail = s.subrange(i + 1, s.len() as int);
            lemma_split_join(tail, c);
            lemma_join_cons(s.subrange(0, i), split_on(tail, c), seq![c]);
            assert(s.subrange(0, i) + seq![c] + tail =~= s);
        },
    }
}

impl RemoteRef {
    /// `owner/repo[/subpath]@rev`.
    pub open spec fn rebuilt(&self) -> Seq<char> {
        self.owner@ + seq!['/'] + self.repo@ + match self.subpath {
            Some(p) => seq!['/'] + p@,
            None => Seq::empty(),
        } + seq!['@'] + self.rev@
    }
}

/// A parsed reference rebuilds the text it was parsed from, with `@HEAD`
/// added when that text named no revision.
pub proof fn lemma_parse_round_trip(r: RemoteRef, uses: Seq<char>)
    requires
        r.parsed_from(uses),
    ensures
        r.raw@ == uses,
        r.rebuilt() == if uses.contains('@') {
            uses
        } else {
            uses + seq!['@', 'H', 'E', 'A', 'D']
        },
{
    lemma_last_index(uses, '@');
    let (loc, rev) = match last_index(uses, '@') {
        Some(i) => (uses.subrange(0, i), uses.subrange(i + 1, uses.len() as int)),
        None => (uses, seq!['H', 'E', 'A', 'D']),
    };
    assert(parse_remote_spec(uses) == parse_location(loc, rev));
    let segs = split_on(loc, '/');
    let rem = segs.skip(2);
    lemma_split_join(loc, '/');
    assert(segs =~= seq![segs[0]] + (seq![segs[1]] + rem));
    lemma_join_cons(segs[0], seq![segs[1]] + rem, seq!['/']);
    let tail = match r.subpath {
        Some(p) => seq!['/'] + p@,
        None => Seq::empty(),
    };
    if rem.len() > 0 {
        lemma_join_cons(segs[1], rem, seq!['/']);
    } else {
        assert(seq![segs[1]] + rem =~= seq![segs[1]]);
    }
    assert(loc =~= r.owner@ + seq!['/'] + r.repo@ + tail);
    match last_index(uses, '@') {
        Some(i) => {
            assert(uses.contains('@')) by {
                assert(uses[i] == '@');
            }
            assert(uses.subrange(0, i) + seq!['@'] + uses.subrange(i + 1, uses.len() as int) =~= uses);
        },
        None => {
            assert(!uses.contains('@'));
        },
    }
    assert(r.rebuilt() =~= loc + seq!['@'] + rev);
}

/// Joining parts is at least as long as the first part.
proof fn lemma_join_len(parts: Seq<Seq<char>>, sep: Seq<char>)
    requires
        parts.len() > 0,
    ensures
        join(parts, sep).len() >= parts[0].len(),
    decreases parts.len(),
{
    if parts.len() > 1 {
        lemma_join_len(parts.drop_last(), sep);
    }
}

/// The referenced target of a parsed reference lies under its cache path,
/// and is a different path when the reference names a subpath.
pub proof fn lemma_target_in_cache(r: RemoteRef, uses: Seq<char>, cache_root: Seq<char>)
    requires
        r.parsed_from(uses),
    ensures
        has_prefix(r.target_path_spec(cache_root), r.cache_path_spec(cache_root)),
        r.subpath is Some ==> r.target_path_spec(cache_root).len() > r.cache_path_spec(cache_root).len(),
{
    let c = r.cache_path_spec(cache_root);
    let t = r.target_path_spec(cache_root);
    assert(t.subrange(0, c.len() as int) =~= c);
    if let Some(sub) = r.subpath {
        let (loc, rev) = match last_index(uses, '@') {
            Some(i) => (uses.subrange(0, i), uses.subrange(i + 1, uses.len() as int)),
            None => (uses, seq!['H', 'E', 'A', 'D']),
        };
        let rem = split_on(loc, '/').skip(2);
        assert(parse_remote_spec(uses) == parse_location(loc, rev));
        assert(rem.len() > 0);
        assert(!bad_subpath_segment(rem[0]));
        lemma_join_len(rem, seq!['/']);
    }
}

/// `base` joined with the relative path `rel` (as `Path::join` does on Unix
/// for a relative `rel`): a `/` goes between them unless `base` is empty or
/// already ends with one.
pub open spec fn path_join(base: Seq<char>, rel: Seq<char>) -> Seq<char> {
    if base.len() == 0 || base.last() == '/' {
        base + rel
    } else {
        base + seq!['/'] + rel
    }
}

/// `base` joined with the relative path `rel`.
pub fn join_path(base: &str, rel: &str) -> (p: String)
    ensures
        p@ == path_join(base@, rel@),
{
    let v = chars_of(base);
    let mut p = owned(base);
    if v.len() > 0 && v[v.len() - 1] != '/' {
        push_char(&mut p, '/');
    }
    p.append(rel);
    p
}

/// `s` with every character other than ASCII letters, digits, `-`, `_` and `.`
/// replaced by `_`.
pub open spec fn sanitized(s: Seq<char>) -> Seq<char> {
    s.map_values(|c: char| if safe_char(c) { c } else { '_' })
}

/// A revision made safe as one path component.
pub fn sanitize_component(value: &str) -> (s: String)
    ensures
        s@ == sanitized(value@),
{
    let v = chars_of(value);
    let mut s = String::new();
    let mut i: usize = 0;
    while i < v.len()
        invariant
            i <= v.len(),
            v@ == value@,
            s@ == sanitized(v@.take(i as int)),
        decreases v.len() - i,
    {
        let c = v[i];
        push_char(&mut s, if is_safe_char(c) { c } else { '_' });
        i += 1;
        assert(sanitized(v@.take(i as int)) =~= sanitized(v@.take(i - 1)).push(
            if safe_char(c) { c } else { '_' }));
    }
    assert(v@.take(v@.len() as int) =~= v@);
    s
}

} // verus!
