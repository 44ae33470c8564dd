//! Branches, which point at commits, and HEAD, which names the current
//! branch; with the rules for branch names and where branch records live.

use crate::object::ObjectSha1;
use vstd::prelude::*;
use vstd::string::{StrSliceExecFns, StringExecFns};

verus! {

/// The head of a branch that has no commit yet.
pub const EMPTY_BRANCH_HEAD_PLACEHOLDER: &'static str = "empty_branch_head_placeholder";

/// The pattern branch names must match: letters, digits, `.`, `_`, `-`.
pub const BRANCH_NAME_PATTERN: &'static str = "^[A-Za-z0-9._-]+$";

/// Whether the regular expression `pattern` compiles and matches `text`.
pub uninterp spec fn regex_matches(pattern: Seq<char>, text: Seq<char>) -> bool;

/// A character allowed in branch names: an ASCII letter or digit, `.`, `_`
/// or `-`.
pub open spec fn is_branch_char(c: char) -> bool {
    ||| (65 <= c as u32 <= 90)
    ||| (97 <= c as u32 <= 122)
    ||| (48 <= c as u32 <= 57)
    ||| c == '.'
    ||| c == '_'
    ||| c == '-'
}

/// A valid branch name: not empty, and made of allowed characters only.
pub open spec fn valid_branch_name(s: Seq<char>) -> bool {
    s.len() > 0 && forall|i: int| 0 <= i < s.len() ==> is_branch_char(#[trigger] s[i])
}

/// Relies on `regex::Regex::new` and `regex::Regex::is_match`: whether the
/// pattern compiles and matches somewhere in the text; the answer depends on
/// the two strings alone. For the branch-name pattern, anchored at both ends
/// (`$` matches only at the end of the text, multi-line mode being off) and
/// made of one repeated character class, the documented syntax gives the
/// meaning: a non-empty text of characters from the class.
#[verifier::external_body]
fn regex_accepts(pattern: &str, text: &str) -> (r: bool)
    ensures
        r == regex_matches(pattern@, text@),
        pattern@ == BRANCH_NAME_PATTERN@ ==> r == valid_branch_name(text@),
{
    match regex::Regex::new(pattern) {
        Ok(re) => re.is_match(text),
        Err(_) => false,
    }
}

/// A named pointer to a commit, local or belonging to a remote.
#[derive(Debug, PartialEq, Eq)]
pub struct Branch {
    pub remote: Option<String>,
    pub name: String,
    pub head: ObjectSha1,
}

/// The mathematical view of a [`Branch`].
pub struct BranchV {
    pub remote: Option<Seq<char>>,
    pub name: Seq<char>,
    pub head: Seq<char>,
}

/// The view of an optional string.
pub open spec fn opt_str(s: Option<String>) -> Option<Seq<char>> {
    match s {
        Some(x) => Some(x@),
        None => None,
    }
}

impl View for Branch {
    type V = BranchV;

    open spec fn view(&self) -> BranchV {
        BranchV { remote: opt_str(self.remote), name: self.name@, head: self.head@ }
    }
}

/// `remote/name` for a remote branch, `name` for a local one.
pub open spec fn full_name_of(remote: Option<Seq<char>>, name: Seq<char>) -> Seq<char> {
    match remote {
        Some(r) => r + seq!['/'] + name,
        None => name,
    }
}

/// The position of the first `/` of `s` from `i` on, or the length of `s`.
pub open spec fn slash_from(s: Seq<char>, i: int) -> int
    decreases s.len() - i,
{
    if i < 0 || i >= s.len() {
        s.len() as int
    } else if s[i] == '/' {
        i
    } else {
        slash_from(s, i + 1)
    }
}

/// A full branch name taken apart: without `/` it is a local name; else the
/// remote comes before the first `/` and the name runs up to the next one.
pub open spec fn parse_full_name(s: Seq<char>) -> (Option<Seq<char>>, Seq<char>) {
    let i = slash_from(s, 0);
    if i >= s.len() {
        (None, s)
    } else {
        (Some(s.subrange(0, i)), s.subrange(i + 1, slash_from(s, i + 1)))
    }
}

/// Where the record of a branch lives, relative to the metadata directory.
pub open spec fn location_of(remote: Option<Seq<char>>, name: Seq<char>) -> Seq<char> {
    match remote {
        Some(r) => "refs/remotes/"@ + r + seq!['/'] + name,
        None => "refs/heads/"@ + name,
    }
}

/// Whether `s` has no `/`.
pub open spec fn no_slash(s: Seq<char>) -> bool {
    forall|i: int| 0 <= i < s.len() ==> s[i] != '/'
}

/// The position of the first `/` of `s` from `i` on, or its length.
fn slash_index(s: &str, i: usize) -> (r: usize)
    requires
        i <= s@.len(),
    ensures
        r as int == slash_from(s@, i as int),
        i <= r <= s@.len(),
{
    let n = s.unicode_len();
    let mut k = i;
    while k < n && s.get_char(k) != '/'
        invariant
            i <= k <= n,
            n == s@.len(),
            slash_from(s@, i as int) == slash_from(s@, k as int),
        decreases n - k,
    {
        k += 1;
    }
    k
}

/// Copies `s` into a new string.
fn owned(s: &str) -> (r: String)
    ensures
        r@ == s@,
{
    s.to_owned()
}

impl Branch {
    /// Whether `name` is acceptable as a branch name.
    pub fn validate_name(name: &str) -> (r: bool)
        ensures
            r == regex_matches(BRANCH_NAME_PATTERN@, name@),
            r == valid_branch_name(name@),
    {
        regex_accepts(BRANCH_NAME_PATTERN, name)
    }

    /// `remote/name` for a remote branch, `name` for a local one.
    pub fn full_name(&self) -> (r: String)
        ensures
            r@ == full_name_of(self@.remote, self@.name),
    {
        match &self.remote {
            Some(remote) => {
                let mut s = remote.clone();
                s.append("/");
                s.append(self.name.as_str());
                proof {
                    reveal_strlit("/");
                    assert(s@ =~= full_name_of(self@.remote, self@.name));
                }
                s
            },
            None => self.name.clone(),
        }
    }

    /// A branch without commits, named by its full name.
    pub fn new(full_name: &str) -> (r: Branch)
        ensures
            (r@.remote, r@.name) == parse_full_name(full_name@),
            r@.head == EMPTY_BRANCH_HEAD_PLACEHOLDER@,
    {
        let n = full_name.unicode_len();
        let i = slash_index(full_name, 0);
        let head = ObjectSha1::of_str(EMPTY_BRANCH_HEAD_PLACEHOLDER);
        if i >= n {
            Branch { remote: None, name: owned(full_name), head }
        } else {
            let j = slash_index(full_name, i + 1);
            let remote = owned(full_name.substring_char(0, i));
            let name = owned(full_name.substring_char(i + 1, j));
            Branch { remote: Some(remote), name, head }
        }
    }

    /// Where the record of this branch lives.
    pub fn location(&self) -> (r: String)
        ensures
            r@ == location_of(self@.remote, self@.name),
    {
        location(&self.remote, &self.name)
    }

    /// A copy of this branch.
    pub fn copied(&self) -> (r: Branch)
        ensures
            r@ == self@,
    {
        let remote = match &self.remote {
            Some(x) => Some(x.clone()),
            None => None,
        };
        Branch { remote, name: self.name.clone(), head: self.head.copied() }
    }
}

/// Where the record of the branch `name` (of `remote`, if any) lives.
fn location(remote: &Option<String>, name: &String) -> (r: String)
    ensures
        r@ == location_of(opt_str(*remote), name@),
{
    match remote {
        Some(rm) => {
            let mut s = owned("refs/remotes/");
            s.append(rm.as_str());
            s.append("/");
            s.append(name.as_str());
            proof {
                reveal_strlit("/");
                assert(s@ =~= location_of(opt_str(*remote), name@));
            }
            s
        },
        None => {
            let mut s = owned("refs/heads/");
            s.append(name.as_str());
            s
        },
    }
}

/// Where the record of the branch with full name `full_name` lives.
pub fn path_of(full_name: &str) -> (r: String)
    ensures
        r@ == location_of(parse_full_name(full_name@).0, parse_full_name(full_name@).1),
{
    let b = Branch::new(full_name);
    b.location()
}

proof fn lemma_slash_none(s: Seq<char>, i: int)
    requires
        0 <= i <= s.len(),
        forall|k: int| i <= k < s.len() ==> s[k] != '/',
    ensures
        slash_from(s, i) == s.len(),
    decreases s.len() - i,
{
    if i < s.len() {
        lemma_slash_none(s, i + 1);
    }
}

proof fn lemma_slash_at(s: Seq<char>, i: int, k: int)
    requires
        0 <= i <= k < s.len(),
        s[k] == '/',
        forall|j: int| i <= j < k ==> s[j] != '/',
    ensures
        slash_from(s, i) == k,
    decreases k - i,
{
    if i < k {
        lemma_slash_at(s, i + 1, k);
    }
}

/// Taking a branch's full name apart gives back its remote and name, when
/// neither holds a `/` (which the naming rule ensures); so the record is
/// found again by its full name where it was saved.
pub proof fn law_full_name_round_trip(remote: Option<Seq<char>>, name: Seq<char>)
    requires
        no_slash(name),
        remote matches Some(r) ==> no_slash(r),
    ensures
        parse_full_name(full_name_of(remote, name)) == (remote, name),
        location_of(parse_full_name(full_name_of(remote, name)).0, parse_full_name(full_name_of(remote, name)).1)
            == location_of(remote, name),
{
    let s = full_name_of(remote, name);
    match remote {
        Some(r) => {
            assert(s[r.len() as int] == '/');
            assert forall|j: int| 0 <= j < r.len() implies s[j] != '/' by {
                assert(s[j] == r[j]);
            }
            lemma_slash_at(s, 0, r.len() as int);
            assert forall|j: int| r.len() + 1 <= j < s.len() implies s[j] != '/' by {
                assert(s[j] == name[j - r.len() - 1]);
            }
            lemma_slash_none(s, r.len() as int + 1);
            assert(s.subrange(0, r.len() as int) =~= r);
            assert(s.subrange(r.len() as int + 1, s.len() as int) =~= name);
        },
        None => {
            lemma_slash_none(s, 0);
        },
    }
}

/// A valid branch name has no `/`.
pub proof fn lemma_valid_name_no_slash(s: Seq<char>)
    requires
        valid_branch_name(s),
    ensures
        no_slash(s),
{
    assert forall|i: int| 0 <= i < s.len() implies s[i] != '/' by {
        assert(is_branch_char(s[i]));
    }
}

/// Whether HEAD follows a local or a remote branch.
#[derive(Debug, PartialEq, Eq)]
pub enum HeadKind {
    Local,
    Remote(String),
}

/// The repository's HEAD: the branch the working directory follows.
#[derive(Debug, PartialEq, Eq)]
pub struct Head {
    pub kind: HeadKind,
    pub branch_name: String,
}

/// What a reference names.
#[derive(Clone, Copy, Debug, PartialEq, Eq, Structural)]
pub enum RefsKind {
    Branch,
    Tag,
}

/// A reference to a commit, by digest.
#[derive(Debug)]
pub struct Refs {
    pub sha1: String,
}

impl Refs {
    /// A reference to the commit `sha1`.
    pub fn new(sha1: String) -> (r: Refs)
        ensures
            r.sha1 == sha1,
    {
        Refs { sha1 }
    }
}

} // verus!
