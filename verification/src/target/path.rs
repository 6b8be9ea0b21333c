//! Absolute target addresses: `//dir/.../name`.

use crate::error::Error;
use crate::text::{
    first_pos, ident_char, is_ident, is_ident_char, is_last, is_rooted, lacks,
    last_index, last_pos, lemma_last_pos, lemma_no_pos, pieces, to_chars,
};
use vstd::prelude::*;
use vstd::string::*;

verus! {

/// A well-formed address: the root marker, then one or more segments
/// separated by single `/`, each a non-empty identifier.
///
/// Read by character: after the marker nothing but identifier characters and
/// `/` occurs, no `/` follows another, and the last character is not `/`.
pub open spec fn valid_address(s: Seq<char>) -> bool {
    &&& is_rooted(s)
    &&& s.len() > 2
    &&& s.last() != '/'
    &&& forall|i: int|
        2 <= i < s.len() ==> if #[trigger] s[i] == '/' {
            s[i - 1] != '/'
        } else {
            ident_char(s[i])
        }
}

/// The segments of a rooted address: what stands between the `/` behind the
/// root marker.
pub open spec fn segments(address: Seq<char>) -> Seq<Seq<char>> {
    pieces(address.skip(2), '/')
}

/// Every segment is a non-empty identifier.
pub open spec fn valid_segments(segs: Seq<Seq<char>>) -> bool {
    forall|i: int| 0 <= i < segs.len() ==> (#[trigger] segs[i]).len() > 0 && is_ident(segs[i])
}

/// What `valid_address` asks of the text behind the root marker.
pub open spec fn valid_tail(t: Seq<char>) -> bool {
    &&& t.len() > 0
    &&& t.last() != '/'
    &&& forall|i: int|
        0 <= i < t.len() ==> if #[trigger] t[i] == '/' {
            i > 0 && t[i - 1] != '/'
        } else {
            ident_char(t[i])
        }
}

/// A text is a well-formed address exactly when it begins with the root
/// marker and every segment behind it is a non-empty identifier: a text
/// without the marker, with an empty segment or with a character that no
/// identifier holds is none.
pub proof fn lemma_valid_address_segments(s: Seq<char>)
    ensures
        valid_address(s) <==> is_rooted(s) && valid_segments(segments(s)),
{
    if is_rooted(s) {
        let t = s.skip(2);
        lemma_valid_tail_segments(t);
        if valid_address(s) {
            assert forall|i: int| 0 <= i < t.len() implies if #[trigger] t[i] == '/' {
                i > 0 && t[i - 1] != '/'
            } else {
                ident_char(t[i])
            } by {}
        }
        if valid_tail(t) {
            assert forall|i: int| 2 <= i < s.len() implies if #[trigger] s[i] == '/' {
                s[i - 1] != '/'
            } else {
                ident_char(s[i])
            } by {
                assert(s[i] == t[i - 2]);
            }
        }
    }
}

/// The same, for the text behind the root marker.
pub proof fn lemma_valid_tail_segments(t: Seq<char>)
    ensures
        valid_tail(t) <==> valid_segments(pieces(t, '/')),
    decreases t.len(),
{
    match first_pos(t, '/') {
        Some(k) => {
            let head = t.take(k);
            let rest = t.skip(k + 1);
            let tail = pieces(rest, '/');
            let all = seq![head] + tail;
            lemma_valid_tail_segments(rest);
            assert(all[0] == head);
            assert forall|i: int| 0 <= i < tail.len() implies all[i + 1] == tail[i] by {}
            if valid_tail(t) {
                assert forall|i: int| 0 <= i < rest.len() implies if #[trigger] rest[i] == '/' {
                    i > 0 && rest[i - 1] != '/'
                } else {
                    ident_char(rest[i])
                } by {}
                assert forall|i: int| 0 <= i < all.len() implies (#[trigger] all[i]).len() > 0
                    && is_ident(all[i]) by {}
            }
            if valid_segments(all) {
                assert forall|i: int| 0 <= i < t.len() implies if #[trigger] t[i] == '/' {
                    i > 0 && t[i - 1] != '/'
                } else {
                    ident_char(t[i])
                } by {
                    if i < k {
                        assert(t[i] == head[i]);
                    } else if i == k {
                        assert(t[k - 1] == head[k - 1]);
                    } else {
                        assert(t[i] == rest[i - k - 1]);
                    }
                }
            }
        },
        None => {
            let all = pieces(t, '/');
            assert(all[0] == t);
            if exists|i: int| 0 <= i < t.len() && t[i] == '/' {
                crate::text::lemma_some_first(t, '/');
            }
            if valid_tail(t) {
                assert forall|i: int| 0 <= i < t.len() implies ident_char(#[trigger] t[i]) by {}
            }
        },
    }
}

/// The text of the address with directory `dir` and target name `name`.
pub open spec fn address_text(dir: Option<Seq<char>>, name: Seq<char>) -> Seq<char> {
    match dir {
        Some(d) => seq!['/', '/'] + d + seq!['/'] + name,
        None => seq!['/', '/'] + name,
    }
}

/// The addresses of `targets`, in order.
pub open spec fn addresses(targets: Seq<TargetPath>) -> Seq<Seq<char>> {
    Seq::new(targets.len(), |i: int| targets[i]@)
}

/// An address spells its directory and its name in one way only: with names
/// that hold no `/`, equal texts come from equal parts.
pub proof fn lemma_address_text_injective(
    d1: Option<Seq<char>>,
    n1: Seq<char>,
    d2: Option<Seq<char>>,
    n2: Seq<char>,
)
    requires
        lacks(n1, '/'),
        lacks(n2, '/'),
        address_text(d1, n1) == address_text(d2, n2),
    ensures
        d1 == d2,
        n1 == n2,
{
    let t = address_text(d1, n1);
    let k1 = last_slash_of(d1);
    let k2 = last_slash_of(d2);
    lemma_last_slash(d1, n1);
    lemma_last_slash(d2, n2);
    crate::text::lemma_last_pos(t, '/', k1);
    crate::text::lemma_last_pos(t, '/', k2);
    match (d1, d2) {
        (Some(a), Some(b)) => {
            assert(a =~= t.subrange(2, k1));
        },
        _ => {},
    }
}

/// Where the last `/` of an address stands, given its directory.
pub open spec fn last_slash_of(dir: Option<Seq<char>>) -> int {
    match dir {
        Some(d) => d.len() as int + 2,
        None => 1,
    }
}

/// The separator in front of the name is the last `/` of the address.
pub proof fn lemma_last_slash(dir: Option<Seq<char>>, name: Seq<char>)
    requires
        lacks(name, '/'),
    ensures
        is_last(address_text(dir, name), '/', last_slash_of(dir)),
        address_text(dir, name).skip(last_slash_of(dir) + 1) == name,
{
    let t = address_text(dir, name);
    let k = last_slash_of(dir);
}

/// The name of the file that declares the targets of its directory.
pub open spec fn definition_file() -> Seq<char> {
    seq!['F', 'F', 'S']
}

/// The definition file of the directory `dir`, relative to the root.
pub open spec fn definition_text(dir: Option<Seq<char>>) -> Seq<char> {
    match dir {
        Some(d) => d + seq!['/'] + definition_file(),
        None => definition_file(),
    }
}

/// The name that the address `address` ends in: what follows its last `/`.
pub open spec fn address_name(address: Seq<char>) -> Seq<char> {
    match last_pos(address, '/') {
        Some(k) => address.skip(k + 1),
        None => address,
    }
}

/// The directory of the address `address`, relative to the root: what stands
/// between the root marker and the last `/` behind it; empty at the root.
pub open spec fn address_dir(address: Seq<char>) -> Seq<char> {
    match last_pos(address.skip(2), '/') {
        Some(k) => address.skip(2).take(k),
        None => Seq::empty(),
    }
}

/// The definition file behind the rooted address `address`: that of the
/// directory in front of the last `/`, or the root's where there is none.
pub open spec fn definition_path(address: Seq<char>) -> Seq<char> {
    match last_pos(address.skip(2), '/') {
        Some(k) => address.skip(2).take(k) + seq!['/'] + definition_file(),
        None => definition_file(),
    }
}

/// What the text of an address says of its parts, where the name holds no
/// `/`.
pub proof fn lemma_address_parts(dir: Option<Seq<char>>, name: Seq<char>)
    requires
        lacks(name, '/'),
    ensures
        address_name(address_text(dir, name)) == name,
        definition_path(address_text(dir, name)) == definition_text(dir),
        address_dir(address_text(dir, name)) == match dir {
            Some(d) => d,
            None => Seq::empty(),
        },
{
    let t = address_text(dir, name);
    lemma_last_slash(dir, name);
    lemma_last_pos(t, '/', last_slash_of(dir));
    let rest = t.skip(2);
    match dir {
        Some(d) => {
            lemma_last_pos(rest, '/', d.len() as int);
        },
        None => {
            lemma_no_pos(rest, '/');
        },
    }
}

/// What stands in a well-formed address: behind the root marker nothing but
/// `/` and identifier characters, so no blank, no `.`, no `:` and no `@`.
pub proof fn lemma_address_chars(s: Seq<char>)
    requires
        valid_address(s),
    ensures
        forall|i: int|
            0 <= i < s.len() ==> (#[trigger] s[i]) != ' ' && s[i] != '\t' && s[i] != '\n' && s[i]
                != '\r' && s[i] != '.' && s[i] != ':' && s[i] != '@',
        forall|i: int| 2 <= i < s.len() ==> (#[trigger] s[i]) == '/' || ident_char(s[i]),
        s[2] != '/',
{
}

/// Writing an address and reading it again changes nothing: a well-formed
/// address is the text of its own directory and name, and of no others.
pub proof fn lemma_address_round_trip(s: Seq<char>)
    requires
        valid_address(s),
    ensures
        lacks(address_name(s), '/'),
        address_text(dir_part(address_dir(s)), address_name(s)) == s,
{
    lemma_valid_address_has_slash(s);
    let k = last_pos(s, '/')->Some_0;
    let name = s.skip(k + 1);
    let rest = s.skip(2);
    if k >= 2 {
        assert(rest.skip(k - 1) =~= name);
        lemma_last_pos(rest, '/', k - 2);
    } else {
        assert(k == 1);
        lemma_no_pos(rest, '/');
    }
}

/// A well-formed address has a last `/`: at the latest the second one of the
/// root marker.
pub proof fn lemma_valid_address_has_slash(s: Seq<char>)
    requires
        is_rooted(s),
    ensures
        last_pos(s, '/') is Some,
        last_pos(s, '/')->Some_0 >= 1,
{
    crate::text::lemma_some_last(s, '/');
    let k = last_pos(s, '/')->Some_0;
    if k < 1 {
        assert(s.skip(k + 1)[0] == '/');
    }
}

/// The directory part of an address from a directory's text: none for the
/// empty text, which stands for the root.
pub open spec fn dir_part(dir: Seq<char>) -> Option<Seq<char>> {
    if dir.len() == 0 {
        None
    } else {
        Some(dir)
    }
}

/// The text of the definition file's path in the directory `dir`.
fn definition_in(dir: &Option<String>) -> (r: String)
    ensures
        r@ == definition_text(
            match *dir {
                Some(d) => Some(d@),
                None => None,
            },
        ),
{
    match dir {
        Some(d) => {
            proof {
                reveal_strlit("/FFS");
            }
            let mut out = d.clone();
            out.append("/FFS");
            out
        },
        None => {
            proof {
                reveal_strlit("FFS");
            }
            let out = String::from_str("FFS");
            out
        },
    }
}

/// The address of a target: the directory that defines it, if it is not the
/// root, and its name.
#[derive(Debug)]
pub struct TargetPath {
    dir: Option<String>,
    name: String,
}

impl View for TargetPath {
    type V = Seq<char>;

    /// The address as text.
    open spec fn view(&self) -> Seq<char> {
        address_text(self.dir_text(), self.name_text())
    }
}

impl Clone for TargetPath {
    fn clone(&self) -> (r: TargetPath)
        ensures
            r == *self,
    {
        proof {
            use_type_invariant(self);
        }
        let dir = match &self.dir {
            Some(d) => Some(d.clone()),
            None => None,
        };
        TargetPath { dir, name: self.name.clone() }
    }
}

impl TargetPath {
    /// The directory part, without the root marker; `None` at the root.
    pub closed spec fn dir_text(&self) -> Option<Seq<char>> {
        match self.dir {
            Some(d) => Some(d@),
            None => None,
        }
    }

    /// The final segment.
    pub closed spec fn name_text(&self) -> Seq<char> {
        self.name@
    }

    /// What holds of every address: it is well formed, and the name is its
    /// final segment.
    #[verifier::type_invariant]
    pub open spec fn wf(&self) -> bool {
        valid_address(self@) && lacks(self.name_text(), '/')
    }

    /// Parses an address. Succeeds exactly on the well-formed ones, and then
    /// the value spells the input again.
    pub fn from_str(s: &str) -> (r: Result<TargetPath, Error>)
        ensures
            valid_address(s@) ==> r is Ok && r->Ok_0@ == s@ && r->Ok_0.wf(),
            !valid_address(s@) ==> r matches Err(Error::InvalidFormat),
    {
        let v = to_chars(s);
        let n = v.len();
        if n <= 2 || v[0] != '/' || v[1] != '/' || v[n - 1] == '/' {
            return Err(Error::InvalidFormat);
        }
        let mut i: usize = 2;
        while i < n
            invariant
                2 <= i <= n,
                n == v.len(),
                v@ == s@,
                forall|j: int|
                    2 <= j < i ==> if #[trigger] v[j] == '/' {
                        v[j - 1] != '/'
                    } else {
                        ident_char(v[j])
                    },
            decreases n - i,
        {
            let c = v[i];
            if c == '/' {
                if v[i - 1] == '/' {
                    return Err(Error::InvalidFormat);
                }
            } else if !is_ident_char(c) {
                return Err(Error::InvalidFormat);
            }
            i += 1;
        }
        let found = last_index(&v, '/');
        assert(found is Some);
        let k = found.unwrap();
        assert(1 <= k < n - 1) by {
            if k < 1 {
                assert(v@.skip(k + 1)[0] == '/');
            }
        }
        let name = String::from_str(s.substring_char(k + 1, n));
        if k >= 2 {
            let dir = String::from_str(s.substring_char(2, k));
            let p = TargetPath { dir: Some(dir), name };
            Ok(p)
        } else {
            let p = TargetPath { dir: None, name };
            Ok(p)
        }
    }

    /// The address as text.
    pub fn to_string(&self) -> (r: String)
        ensures
            r@ == self@,
    {
        proof {
            reveal_strlit("//");
            reveal_strlit("/");
        }
        let mut out = String::from_str("//");
        match &self.dir {
            Some(d) => {
                out.append(d.as_str());
                out.append("/");
            },
            None => {},
        }
        out.append(self.name.as_str());
        out
    }

    /// The final segment: the target's name within its definition file.
    pub fn name(&self) -> (r: &str)
        ensures
            r@ == self.name_text(),
            r@ == address_name(self@),
    {
        proof {
            use_type_invariant(self);
            lemma_address_parts(self.dir_text(), self.name_text());
        }
        self.name.as_str()
    }

    /// The directory of the definition file that declares this target,
    /// relative to the root; empty at the root.
    pub fn directory(&self) -> (r: String)
        ensures
            r@ == address_dir(self@),
    {
        proof {
            use_type_invariant(self);
            lemma_address_parts(self.dir_text(), self.name_text());
        }
        match &self.dir {
            Some(d) => d.clone(),
            None => String::new(),
        }
    }

    /// The path of the definition file that declares this target, relative to
    /// the root.
    pub fn definition(&self) -> (r: String)
        ensures
            r@ == definition_text(self.dir_text()),
            r@ == definition_path(self@),
    {
        proof {
            use_type_invariant(self);
            lemma_address_parts(self.dir_text(), self.name_text());
        }
        definition_in(&self.dir)
    }

    /// Whether two addresses are the same.
    pub fn same(&self, other: &TargetPath) -> (r: bool)
        ensures
            r == (self.dir_text() == other.dir_text() && self.name_text() == other.name_text()),
            r == (self@ == other@),
    {
        proof {
            use_type_invariant(self);
            use_type_invariant(other);
            if self@ == other@ {
                lemma_address_text_injective(
                    self.dir_text(),
                    self.name_text(),
                    other.dir_text(),
                    other.name_text(),
                );
            }
        }
        let dirs = match &self.dir {
            Some(a) => match &other.dir {
                Some(b) => *a == *b,
                None => false,
            },
            None => other.dir.is_none(),
        };
        dirs && self.name == other.name
    }
}

/// Whether `target` stands in `targets`.
pub(crate) fn holds_address(targets: &Vec<TargetPath>, target: &TargetPath) -> (r: bool)
    ensures
        r == addresses(targets@).contains(target@),
{
    let text = target.to_string();
    let mut i: usize = 0;
    while i < targets.len()
        invariant
            i <= targets.len(),
            text@ == target@,
            forall|j: int| 0 <= j < i ==> addresses(targets@)[j] != target@,
        decreases targets.len() - i,
    {
        if targets[i].to_string() == text {
            assert(addresses(targets@)[i as int] == target@);
            return true;
        }
        i += 1;
    }
    false
}

} // verus!
