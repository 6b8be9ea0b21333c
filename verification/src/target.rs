//! Target addresses, output references and selectors.

pub mod def;
pub mod output;
pub mod path;
pub mod set;

use crate::error::Error;
use crate::target::path::{
    address_dir, address_name, address_text, addresses, definition_file, definition_path, definition_text,
    dir_part, valid_address, TargetPath,
};
use crate::target::def::TargetDef;
use crate::target::set::TargetSet;
use crate::text::{
    distinct_texts, first_from, first_index, first_pos, has_prefix, has_text, ident_between,
    is_ident, is_rooted, is_under, last_index, last_pos, lemma_first_pos, lemma_members_cons,
    lemma_no_pos, lemma_text_set_push, members, pieces, text_set, to_chars, under,
};
use vstd::prelude::*;
use vstd::string::*;

verus! {

/// Checks that `s` is made of identifier characters only.
pub fn ident(s: &str) -> (r: Result<&str, Error>)
    ensures
        is_ident(s@) ==> r is Ok && r->Ok_0@ == s@,
        !is_ident(s@) ==> r matches Err(Error::InvalidFormat),
{
    let v = to_chars(s);
    assert(v@.subrange(0, v.len() as int) =~= s@);
    if ident_between(&v, 0, v.len()) {
        Ok(s)
    } else {
        Err(Error::InvalidFormat)
    }
}

/// The path of the definition file, relative to the root, that declares the
/// target addressed by `target`. The address must begin with the root
/// marker; nothing else is asked of it.
pub fn path_to_definition(target: &str) -> (r: Result<String, Error>)
    ensures
        is_rooted(target@) ==> r is Ok && r->Ok_0@ == definition_path(target@),
        !is_rooted(target@) ==> r matches Err(Error::InvalidFormat),
{
    let v = to_chars(target);
    let n = v.len();
    if n < 2 || v[0] != '/' || v[1] != '/' {
        return Err(Error::InvalidFormat);
    }
    proof {
        reveal_strlit("FFS");
        reveal_strlit("/FFS");
    }
    let rest = target.substring_char(2, n);
    assert(rest@ =~= target@.skip(2));
    let w = to_chars(rest);
    match last_index(&w, '/') {
        Some(k) => {
            let mut out = String::from_str(rest.substring_char(0, k));
            out.append("/FFS");
            assert(out@ =~= definition_path(target@));
            Ok(out)
        },
        None => {
            let out = String::from_str("FFS");
            Ok(out)
        },
    }
}

/// The name of the target addressed by `target`: what follows its last `/`.
pub fn name(target: &str) -> (r: Result<&str, Error>)
    ensures
        match last_pos(target@, '/') {
            Some(k) => r is Ok && r->Ok_0@ == address_name(target@),
            None => r matches Err(Error::InvalidFormat),
        },
{
    let v = to_chars(target);
    match last_index(&v, '/') {
        Some(k) => {
            assert(k < v.len());
            let tail = target.substring_char(k + 1, v.len());
            Ok(tail)
        },
        None => Err(Error::InvalidFormat),
    }
}

/// `p` without a leading `./`; the path `.` alone is the empty path.
pub open spec fn strip_dot(p: Seq<char>) -> Seq<char> {
    if p.len() >= 2 && p[0] == '.' && p[1] == '/' {
        p.skip(2)
    } else if p.len() == 1 && p[0] == '.' {
        p.skip(1)
    } else {
        p
    }
}

/// `p` without a final component that names the definition file.
pub open spec fn strip_definition_file(p: Seq<char>) -> Seq<char> {
    if p == definition_file() {
        p.take(0)
    } else if (seq!['/'] + definition_file()).is_suffix_of(p) {
        p.take(p.len() - 4)
    } else {
        p
    }
}

/// `p` without one trailing `/`.
pub open spec fn strip_slash(p: Seq<char>) -> Seq<char> {
    if p.len() > 0 && p.last() == '/' {
        p.drop_last()
    } else {
        p
    }
}

/// The directory, relative to the root, that the path of a definition file
/// or of a directory stands for; empty for the root itself. A `/` at the
/// end of the path counts for nothing, before and behind the name of the
/// definition file.
pub open spec fn definition_dir(path: Seq<char>) -> Seq<char> {
    strip_slash(strip_definition_file(strip_slash(strip_dot(path))))
}

/// The address of the directory that `path` stands for: the root marker and
/// the directory.
pub open spec fn dir_address(path: Seq<char>) -> Seq<char> {
    seq!['/', '/'] + definition_dir(path)
}

/// Whether the path `p` names a definition file: its last component is the
/// definition file's name. A `/` at the end of the path counts for nothing.
pub open spec fn names_definition_file(p: Seq<char>) -> bool {
    strip_slash(p) == definition_file() || (seq!['/'] + definition_file()).is_suffix_of(
        strip_slash(p),
    )
}

/// The targets of `entries`, declared in the directory `dir`, that `sel`
/// takes: their addresses in order, or `None` where a name in `entries`
/// makes no address.
pub open spec fn selected(
    sel: SelectorView,
    dir: Seq<char>,
    entries: Seq<(String, TargetDef)>,
) -> Option<Seq<Seq<char>>>
    decreases entries.len(),
{
    if entries.len() == 0 {
        Some(Seq::empty())
    } else {
        match selected(sel, dir, entries.drop_last()) {
            None => None,
            Some(before) => {
                let address = address_text(dir_part(dir), entries.last().0@);
                if !valid_address(address) {
                    None
                } else if selects(
                    sel,
                    address,
                    text_set(entries.last().1.spec_common().spec_tags()),
                ) {
                    Some(before.push(address))
                } else {
                    Some(before)
                }
            },
        }
    }
}

/// Where a name among the first `n` entries makes no address, none is
/// selected from all of them either.
pub proof fn lemma_selected_stops(
    sel: SelectorView,
    dir: Seq<char>,
    entries: Seq<(String, TargetDef)>,
    n: int,
)
    requires
        0 <= n <= entries.len(),
        selected(sel, dir, entries.take(n)) is None,
    ensures
        selected(sel, dir, entries) is None,
    decreases entries.len() - n,
{
    if n < entries.len() {
        assert(entries.take(n + 1).drop_last() =~= entries.take(n));
        lemma_selected_stops(sel, dir, entries, n + 1);
    } else {
        assert(entries.take(n) =~= entries);
    }
}

/// Whether `path` names a definition file.
pub fn is_definition_file(path: &str) -> (r: bool)
    ensures
        r == names_definition_file(path@),
{
    let v = to_chars(path);
    let end = trim_slash(&v, 0, v.len());
    let cut = trim_definition_file(&v, 0, end);
    let ghost q = v@.subrange(0, end as int);
    proof {
        assert(v@.subrange(0, v.len() as int) =~= v@);
        let w = seq!['/'] + definition_file();
        assert(w.len() == 4 && definition_file().len() == 3);
        if q == definition_file() || w.is_suffix_of(q) {
            assert(strip_definition_file(q).len() < q.len());
        }
    }
    cut < end
}

/// The path, relative to the root, of the definition file of the directory
/// that `path` stands for: the path under which that file is kept once it is
/// read.
pub fn definition_of(path: &str) -> (r: String)
    ensures
        r@ == definition_text(dir_part(definition_dir(path@))),
{
    let v = to_chars(path);
    let (start, end) = dir_range(&v);
    proof {
        reveal_strlit("/FFS");
        reveal_strlit("FFS");
    }
    if end > start {
        let mut out = String::from_str(path.substring_char(start, end));
        out.append("/FFS");
        assert(out@ =~= definition_text(dir_part(definition_dir(path@))));
        out
    } else {
        let out = String::from_str("FFS");
        assert(out@ =~= definition_text(dir_part(definition_dir(path@))));
        out
    }
}

/// Taking an address apart and putting it together again changes nothing:
/// the definition file and the name of a well-formed address make that
/// address.
pub proof fn lemma_definition_round_trip(s: Seq<char>)
    requires
        valid_address(s),
    ensures
        definition_dir(definition_path(s)) == address_dir(s),
        address_text(dir_part(definition_dir(definition_path(s))), address_name(s)) == s,
{
    crate::target::path::lemma_address_round_trip(s);
    crate::target::path::lemma_address_chars(s);
    let rest = s.skip(2);
    let file = definition_file();
    match last_pos(rest, '/') {
        Some(k) => {
            assert(crate::text::is_last(rest, '/', k));
            let d = rest.take(k);
            let p = d + seq!['/'] + file;
            assert(rest[0] == s[2]);
            assert(k > 0);
            assert(d[0] == s[2]);
            assert(d.last() == s[k + 1]);
            assert(s[k + 2] == '/');
            assert(p[0] == d[0]);
            assert(p.len() == d.len() + 4);
            assert(strip_dot(p) == p);
            assert(p.last() == 'S');
            assert(strip_slash(p) == p);
            assert((seq!['/'] + file) =~= p.subrange(p.len() - 4, p.len() as int));
            assert(p.take(p.len() - 4) =~= d);
            assert(strip_definition_file(p) == d);
            assert(strip_slash(d) == d);
        },
        None => {
            assert(file[0] == 'F');
            assert(strip_dot(file) == file);
            assert(file.last() == 'S');
            assert(strip_slash(file) == file);
            assert(strip_definition_file(file) =~= Seq::<char>::empty());
            assert(address_dir(s) =~= Seq::<char>::empty());
        },
    }
}

/// Where `v` begins behind a leading `./`.
fn skip_dot(v: &Vec<char>) -> (start: usize)
    ensures
        start <= v.len(),
        v@.subrange(start as int, v.len() as int) == strip_dot(v@),
{
    let n = v.len();
    let start: usize = if n >= 2 && v[0] == '.' && v[1] == '/' {
        2
    } else if n == 1 && v[0] == '.' {
        1
    } else {
        0
    };
    assert(v@.subrange(start as int, n as int) =~= strip_dot(v@));
    start
}

/// Where the part of `v` from `start` to `end` ends without one trailing
/// `/`.
fn trim_slash(v: &Vec<char>, start: usize, end: usize) -> (e: usize)
    requires
        start <= end <= v.len(),
    ensures
        start <= e <= end,
        v@.subrange(start as int, e as int) == strip_slash(v@.subrange(start as int, end as int)),
{
    let e: usize = if end > start && v[end - 1] == '/' {
        end - 1
    } else {
        end
    };
    assert(v@.subrange(start as int, e as int) =~= strip_slash(
        v@.subrange(start as int, end as int),
    ));
    e
}

/// Where the part of `v` from `start` to `end` ends without a final
/// component that names the definition file.
fn trim_definition_file(v: &Vec<char>, start: usize, end: usize) -> (e: usize)
    requires
        start <= end <= v.len(),
    ensures
        start <= e <= end,
        v@.subrange(start as int, e as int) == strip_definition_file(
            v@.subrange(start as int, end as int),
        ),
{
    let ghost b = v@.subrange(start as int, end as int);
    let ghost w = seq!['/'] + definition_file();
    if end - start == 3 && v[start] == 'F' && v[start + 1] == 'F' && v[start + 2] == 'S' {
        assert(b =~= definition_file());
        assert(v@.subrange(start as int, start as int) =~= b.take(0));
        start
    } else if end - start >= 4 && v[end - 4] == '/' && v[end - 3] == 'F' && v[end - 2] == 'F'
        && v[end - 1] == 'S' {
        assert(w =~= b.subrange(b.len() - 4, b.len() as int));
        assert(w.len() == 4);
        assert(b.len() != 3);
        assert(v@.subrange(start as int, end - 4) =~= b.take(b.len() - 4));
        end - 4
    } else {
        assert(b != definition_file()) by {
            if b == definition_file() {
                assert(b[0] == 'F' && b[1] == 'F' && b[2] == 'S');
            }
        }
        assert(!w.is_suffix_of(b)) by {
            if w.is_suffix_of(b) {
                let t = b.subrange(b.len() - 4, b.len() as int);
                assert(t[0] == w[0] && t[1] == w[1] && t[2] == w[2] && t[3] == w[3]);
            }
        }
        end
    }
}

/// Where in `v` the directory that `v` stands for begins and ends.
fn dir_range(v: &Vec<char>) -> (r: (usize, usize))
    ensures
        r.0 <= r.1 <= v.len(),
        v@.subrange(r.0 as int, r.1 as int) == definition_dir(v@),
{
    let start = skip_dot(v);
    let e1 = trim_slash(v, start, v.len());
    let e2 = trim_definition_file(v, start, e1);
    let e3 = trim_slash(v, start, e2);
    (start, e3)
}

/// The address of the target `name` declared in the directory that
/// `file_or_dir` stands for. `file_or_dir` is the path of a directory or of
/// its definition file, relative to the root.
pub fn task_path(file_or_dir: &str, name: &str) -> (r: String)
    ensures
        r@ == address_text(dir_part(definition_dir(file_or_dir@)), name@),
{
    let v = to_chars(file_or_dir);
    let (start, end) = dir_range(&v);
    proof {
        reveal_strlit("//");
        reveal_strlit("/");
    }
    let mut out = String::from_str("//");
    if end > start {
        out.append(file_or_dir.substring_char(start, end));
        out.append("/");
    }
    out.append(name);
    out
}

impl TargetPath {
    /// The address of the target `name` declared in the directory that
    /// `path` stands for, if that is a well-formed address.
    pub fn from_path_name(path: &str, name: &str) -> (r: Result<TargetPath, Error>)
        ensures
            match r {
                Ok(p) => p.wf() && p@ == address_text(dir_part(definition_dir(path@)), name@),
                Err(e) => e matches Error::InvalidFormat && !valid_address(
                    address_text(dir_part(definition_dir(path@)), name@),
                ),
            },
    {
        let text = task_path(path, name);
        TargetPath::from_str(text.as_str())
    }
}

/// What a selector asks for.
pub struct SelectorView {
    /// The address that is selected, or below which everything is.
    pub target: Seq<char>,
    /// Whether what lies below `target` is selected too.
    pub allow_children: bool,
    /// The tags that a selected target must all carry.
    pub required_tags: Set<Seq<char>>,
}

/// The part of a selector in front of its first `@`.
pub open spec fn selector_body(s: Seq<char>) -> Seq<char> {
    match first_pos(s, '@') {
        Some(k) => s.take(k),
        None => s,
    }
}

/// The tags behind the first `@` of a selector, separated by `,`.
pub open spec fn selector_tags(s: Seq<char>) -> Set<Seq<char>> {
    match first_pos(s, '@') {
        Some(k) => members(pieces(s.skip(k + 1), ',')),
        None => Set::empty(),
    }
}

/// The suffix that makes a selector a glob.
pub open spec fn glob_suffix() -> Seq<char> {
    seq!['/', '.', '.', '.']
}

/// What the selector text `s` asks for, if it is well formed.
pub open spec fn parse_selector(s: Seq<char>) -> Option<SelectorView> {
    let body = selector_body(s);
    let required_tags = selector_tags(s);
    if body.len() == 0 || body == seq!['*'] {
        Some(SelectorView { target: seq!['/'], allow_children: true, required_tags })
    } else if !is_rooted(body) {
        None
    } else if glob_suffix().is_suffix_of(body) {
        Some(
            SelectorView { target: body.take(body.len() - 4), allow_children: true, required_tags },
        )
    } else {
        Some(SelectorView { target: body, allow_children: false, required_tags })
    }
}

/// Whether the selector `sel` takes the target at `path` that carries `tags`.
pub open spec fn selects(sel: SelectorView, path: Seq<char>, tags: Set<Seq<char>>) -> bool {
    &&& sel.required_tags.subset_of(tags)
    &&& if sel.allow_children {
        under(sel.target, path)
    } else {
        path == sel.target
    }
}

/// A glob keeps to the boundary of its prefix: it takes the prefix itself
/// and what follows the prefix and a `/`, and nothing that goes on from the
/// prefix with another character.
pub proof fn lemma_glob_boundary(sel: SelectorView, rest: Seq<char>, tags: Set<Seq<char>>)
    requires
        sel.allow_children,
        sel.required_tags.subset_of(tags),
    ensures
        selects(sel, sel.target, tags),
        selects(sel, sel.target + seq!['/'] + rest, tags),
        rest.len() > 0 && rest[0] != '/' ==> !selects(sel, sel.target + rest, tags),
{
    let below = sel.target + seq!['/'] + rest;
    assert(below[sel.target.len() as int] == '/');
    if rest.len() > 0 && rest[0] != '/' {
        let beside = sel.target + rest;
        assert(beside[sel.target.len() as int] == rest[0]);
    }
}

/// The selector that `*` or the empty text makes takes every rooted
/// address.
pub proof fn lemma_wildcard(s: Seq<char>, path: Seq<char>, tags: Set<Seq<char>>)
    requires
        s.len() == 0 || s == seq!['*'],
        is_rooted(path),
    ensures
        parse_selector(s) is Some,
        selects(parse_selector(s)->Some_0, path, tags),
{
    if s.len() > 0 {
        assert(s[0] == '*');
    }
    lemma_no_pos(s, '@');
    let sel = parse_selector(s)->Some_0;
    assert(sel.target == seq!['/']);
    assert(sel.target =~= path.subrange(0, 1));
}

/// An exact selector takes the target at its own address and no other.
pub proof fn lemma_exact(sel: SelectorView, path: Seq<char>, tags: Set<Seq<char>>)
    requires
        !sel.allow_children,
    ensures
        selects(sel, path, tags) <==> path == sel.target && sel.required_tags.subset_of(tags),
{
}

/// A target that lacks a required tag is not taken, whatever its address.
pub proof fn lemma_tags_are_required(
    sel: SelectorView,
    path: Seq<char>,
    tags: Set<Seq<char>>,
    tag: Seq<char>,
)
    requires
        sel.required_tags.contains(tag),
        !tags.contains(tag),
    ensures
        !selects(sel, path, tags),
{
}

/// Whether a definition file in the directory with address `dir` can hold a
/// target that `sel` takes: for a glob, a directory at or below its prefix;
/// for an exact selector, the directory of its target alone.
pub open spec fn selects_dir(sel: SelectorView, dir: Seq<char>) -> bool {
    if sel.allow_children {
        under(sel.target, dir)
    } else {
        match last_pos(sel.target, '/') {
            Some(k) => dir == sel.target.take(k) || (dir == seq!['/', '/'] && sel.target.take(k)
                == seq!['/']),
            None => false,
        }
    }
}

/// A pattern over target addresses and tags.
#[derive(Debug)]
pub struct Selector {
    target: String,
    allow_children: bool,
    required_tags: Vec<String>,
    source: String,
}

impl View for Selector {
    type V = SelectorView;

    closed spec fn view(&self) -> SelectorView {
        SelectorView {
            target: self.target@,
            allow_children: self.allow_children,
            required_tags: text_set(self.required_tags@),
        }
    }
}

/// The distinct parts of `s` from `from` on, separated by `,`.
fn split_tags(s: &str, v: &Vec<char>, from: usize) -> (out: Vec<String>)
    requires
        v@ == s@,
        from <= v.len(),
    ensures
        text_set(out@) == members(pieces(s@.skip(from as int), ',')),
        distinct_texts(out@),
{
    let n = v.len();
    let mut out: Vec<String> = Vec::new();
    let mut start: usize = from;
    let ghost goal = members(pieces(s@.skip(from as int), ','));
    assert(text_set(out@) =~= Set::<Seq<char>>::empty());
    loop
        invariant
            v@ == s@,
            n == v.len(),
            from <= start <= n,
            distinct_texts(out@),
            goal == text_set(out@).union(members(pieces(s@.skip(start as int), ','))),
        ensures
            goal == text_set(out@),
            distinct_texts(out@),
        decreases n - start,
    {
        let end = first_from(v, ',', start);
        let piece = String::from_str(s.substring_char(start, end));
        let ghost rest = s@.skip(start as int);
        proof {
            assert(piece@ =~= rest.take(end - start));
            if end < n {
                lemma_first_pos(rest, ',', end - start);
                assert(rest.skip(end - start + 1) =~= s@.skip(end + 1));
                lemma_members_cons(piece@, pieces(s@.skip(end + 1), ','));
            } else {
                assert(rest =~= v@.subrange(start as int, end as int));
                lemma_no_pos(rest, ',');
                lemma_members_cons(piece@, Seq::empty());
            }
        }
        if !has_text(&out, &piece) {
            proof {
                lemma_text_set_push(out@, piece);
            }
            out.push(piece);
        }
        if end >= n {
            assert(goal =~= text_set(out@));
            break ;
        }
        start = end + 1;
    }
    out
}

impl Selector {
    /// The text that the selector was parsed from.
    pub closed spec fn spec_source(&self) -> Seq<char> {
        self.source@
    }

    /// What holds of every selector: no tag is required twice.
    #[verifier::type_invariant]
    pub closed spec fn wf(&self) -> bool {
        distinct_texts(self.required_tags@)
    }

    /// Parses a selector: `*` or nothing for everything, `//a/b` for one
    /// target, `//a/...` for what lies at or below `//a`; behind an `@`, the
    /// tags that a target must carry, separated by `,`.
    pub fn from_str(s: &str) -> (r: Result<Selector, Error>)
        ensures
            match parse_selector(s@) {
                Some(view) => r is Ok && r->Ok_0@ == view && r->Ok_0.spec_source() == s@
                    && r->Ok_0.wf(),
                None => r matches Err(Error::InvalidFormat),
            },
    {
        let v = to_chars(s);
        let n = v.len();
        let source = String::from_str(s);
        let (end, required_tags) = match first_index(&v, '@') {
            Some(k) => (k, split_tags(s, &v, k + 1)),
            None => {
                let none: Vec<String> = Vec::new();
                assert(text_set(none@) =~= Set::<Seq<char>>::empty());
                (n, none)
            },
        };
        let ghost body = selector_body(s@);
        assert(body =~= v@.subrange(0, end as int));
        assert(text_set(required_tags@) == selector_tags(s@));
        proof {
            reveal_strlit("/");
        }
        if end == 0 || (end == 1 && v[0] == '*') {
            assert(body.len() == 0 || body =~= seq!['*']);
            let target = String::from_str("/");
            assert(target@ =~= seq!['/']);
            return Ok(Selector { target, allow_children: true, required_tags, source });
        }
        assert(body != seq!['*']) by {
            if body == seq!['*'] {
                assert(body[0] == '*');
            }
        }
        if end < 2 || v[0] != '/' || v[1] != '/' {
            return Err(Error::InvalidFormat);
        }
        if end >= 4 && v[end - 4] == '/' && v[end - 3] == '.' && v[end - 2] == '.' && v[end - 1]
            == '.' {
            let target = String::from_str(s.substring_char(0, end - 4));
            assert(target@ =~= body.take(body.len() - 4));
            return Ok(Selector { target, allow_children: true, required_tags, source });
        }
        assert(!glob_suffix().is_suffix_of(body)) by {
            if glob_suffix().is_suffix_of(body) {
                let t = body.subrange(body.len() - 4, body.len() as int);
                let w = glob_suffix();
                assert(t[0] == w[0] && t[1] == w[1] && t[2] == w[2] && t[3] == w[3]);
            }
        }
        let target = String::from_str(s.substring_char(0, end));
        Ok(Selector { target, allow_children: false, required_tags, source })
    }

    /// Whether every required tag stands in `tags`.
    fn tags_met(&self, tags: &Vec<String>) -> (r: bool)
        ensures
            r == text_set(self.required_tags@).subset_of(text_set(tags@)),
    {
        let mut i: usize = 0;
        while i < self.required_tags.len()
            invariant
                i <= self.required_tags.len(),
                forall|j: int|
                    0 <= j < i ==> text_set(tags@).contains((#[trigger] self.required_tags[j])@),
            decreases self.required_tags.len() - i,
        {
            if !has_text(tags, &self.required_tags[i]) {
                return false;
            }
            i += 1;
        }
        true
    }

    /// Whether the target at the address `task_id`, carrying `tags`, is
    /// selected: it carries every required tag, and its address is the
    /// selector's, or lies below it where the selector is a glob.
    pub fn matches(&self, task_id: &str, tags: &Vec<String>) -> (r: bool)
        ensures
            r == selects(self@, task_id@, text_set(tags@)),
    {
        if !self.tags_met(tags) {
            return false;
        }
        let target = to_chars(self.target.as_str());
        let path = to_chars(task_id);
        if self.allow_children {
            is_under(&target, &path)
        } else {
            let r = is_under(&target, &path) && path.len() == target.len();
            assert(r == (path@ == target@));
            r
        }
    }

    /// Whether the target at `path`, carrying `tags`, is selected.
    pub fn matches_path(&self, path: &TargetPath, tags: &Vec<String>) -> (r: bool)
        ensures
            r == selects(self@, path@, text_set(tags@)),
    {
        let text = path.to_string();
        self.matches(text.as_str(), tags)
    }

    /// Whether the definition file at `path`, or the one in the directory at
    /// `path`, can hold a selected target. `path` is relative to the root.
    pub fn matches_file(&self, path: &str) -> (r: bool)
        ensures
            r == selects_dir(self@, dir_address(path@)),
    {
        let v = to_chars(path);
        let (start, end) = dir_range(&v);
        proof {
            reveal_strlit("//");
        }
        let mut text = String::from_str("//");
        text.append(path.substring_char(start, end));
        assert(text@ =~= dir_address(path@));
        let dir = to_chars(text.as_str());
        let target = to_chars(self.target.as_str());
        if self.allow_children {
            return is_under(&target, &dir);
        }
        match last_index(&target, '/') {
            Some(k) => {
                let ghost parent = target@.take(k as int);
                let same = dir.len() == k && has_prefix(&target, &dir);
                assert(same == (dir@ == parent));
                let root = k == 1 && target[0] == '/' && dir.len() == 2 && dir[0] == '/' && dir[1]
                    == '/';
                assert(root == (dir@ == seq!['/', '/'] && parent == seq!['/'])) by {
                    if root {
                        assert(parent =~= seq!['/']);
                    }
                    if dir@ == seq!['/', '/'] && parent == seq!['/'] {
                        assert(parent[0] == '/');
                    }
                }
                same || root
            },
            None => false,
        }
    }

    /// The targets that the definition file at `file` declares and the
    /// selector takes, in the order of their names. `set` is what the file
    /// declares. Fails where one name in `set` makes no address.
    pub fn select(&self, file: &str, set: &TargetSet) -> (r: Result<Vec<TargetPath>, Error>)
        ensures
            match selected(self@, definition_dir(file@), set.entries()) {
                Some(list) => r is Ok && addresses(r->Ok_0@) == list,
                None => r matches Err(Error::InvalidFormat),
            },
    {
        let mut out: Vec<TargetPath> = Vec::new();
        let mut i: usize = 0;
        let n = set.len();
        let ghost dir = definition_dir(file@);
        while i < n
            invariant
                i <= n,
                n == set.spec_len(),
                dir == definition_dir(file@),
                selected(self@, dir, set.entries().take(i as int)) == Some(addresses(out@)),
            decreases n - i,
        {
            proof {
                assert(set.entries().take(i + 1).drop_last() =~= set.entries().take(i as int));
            }
            match TargetPath::from_path_name(file, set.name_at(i)) {
                Ok(p) => {
                    if self.matches_path(&p, set.def_at(i).common().tags()) {
                        out.push(p);
                    }
                },
                Err(_) => {
                    proof {
                        lemma_selected_stops(self@, dir, set.entries(), i + 1);
                    }
                    return Err(Error::InvalidFormat);
                },
            }
            i += 1;
        }
        assert(set.entries().take(i as int) =~= set.entries());
        Ok(out)
    }

    /// The selector as it was written.
    pub fn to_string(&self) -> (r: String)
        ensures
            r@ == self.spec_source(),
    {
        self.source.clone()
    }
}

} // verus!
