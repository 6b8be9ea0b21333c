//! Output references: a target and one of its named output slots.

use crate::error::Error;
use crate::target::path::{valid_address, TargetPath};
use crate::text::{
    ident_between, is_ident, lacks, last_index, last_pos, lemma_last_pos, to_chars,
};
use vstd::prelude::*;
use vstd::string::*;

verus! {

/// What an output reference says: the target's address and the slot's name.
pub type OutputKey = (Seq<char>, Seq<char>);

/// What `s` refers to, if it is an output reference: the text before its last
/// `:` is the target and the text behind it the slot; without a `:` the whole
/// is the target and the slot is `default`.
pub open spec fn parse_output(s: Seq<char>) -> Option<OutputKey> {
    match last_pos(s, ':') {
        Some(k) => if valid_address(s.take(k)) && is_ident(s.skip(k + 1)) {
            Some((s.take(k), s.skip(k + 1)))
        } else {
            None
        },
        None => if valid_address(s) {
            Some((s, "default"@))
        } else {
            None
        },
    }
}

/// The text of the reference to slot `name` of the target at `target`.
pub open spec fn output_text(key: OutputKey) -> Seq<char> {
    key.0 + seq![':'] + key.1
}

/// A produced artifact: a target and the name of one of its output slots.
#[derive(Debug)]
pub struct Output {
    target: TargetPath,
    name: String,
}

impl View for Output {
    type V = OutputKey;

    closed spec fn view(&self) -> OutputKey {
        (self.target@, self.name@)
    }
}

impl Clone for Output {
    fn clone(&self) -> (r: Output)
        ensures
            r == *self,
    {
        proof {
            use_type_invariant(self);
        }
        Output { target: self.target.clone(), name: self.name.clone() }
    }
}

impl Output {
    /// The target whose artifact this is.
    pub closed spec fn spec_target(&self) -> TargetPath {
        self.target
    }

    /// What holds of every output reference: the target is well formed and
    /// the slot name holds no `:`.
    #[verifier::type_invariant]
    pub open spec fn wf(&self) -> bool {
        &&& self.spec_target().wf()
        &&& self.spec_target()@ == self@.0
        &&& lacks(self@.1, ':')
    }

    /// Parses an output reference. Succeeds exactly where `parse_output`
    /// finds one, with that target and slot.
    pub fn from_str(s: &str) -> (r: Result<Output, Error>)
        ensures
            match parse_output(s@) {
                Some(key) => r is Ok && r->Ok_0@ == key && r->Ok_0.wf(),
                None => r matches Err(Error::InvalidFormat),
            },
    {
        let v = to_chars(s);
        let n = v.len();
        match last_index(&v, ':') {
            Some(k) => {
                let head = s.substring_char(0, k);
                if !ident_between(&v, k + 1, n) {
                    return Err(Error::InvalidFormat);
                }
                match TargetPath::from_str(head) {
                    Ok(target) => {
                        let name = String::from_str(s.substring_char(k + 1, n));
                        Ok(Output { target, name })
                    },
                    Err(_) => Err(Error::InvalidFormat),
                }
            },
            None => match TargetPath::from_str(s) {
                Ok(target) => {
                    proof {
                        lemma_default_has_no_colon();
                    }
                    Ok(Output { target, name: String::from_str("default") })
                },
                Err(_) => Err(Error::InvalidFormat),
            },
        }
    }

    /// The reference to slot `slot` of `target`, where `slot` is an
    /// identifier.
    pub fn new(target: TargetPath, slot: &str) -> (r: Result<Output, Error>)
        ensures
            is_ident(slot@) ==> r is Ok && r->Ok_0@ == (target@, slot@) && r->Ok_0.spec_target()
                == target && r->Ok_0.wf(),
            !is_ident(slot@) ==> r matches Err(Error::InvalidFormat),
    {
        let v = to_chars(slot);
        assert(v@.subrange(0, v.len() as int) =~= slot@);
        if ident_between(&v, 0, v.len()) {
            proof {
                use_type_invariant(&target);
            }
            Ok(Output { target, name: String::from_str(slot) })
        } else {
            Err(Error::InvalidFormat)
        }
    }

    /// The target whose artifact this is.
    pub fn target(&self) -> (r: &TargetPath)
        ensures
            *r == self.spec_target(),
            r@ == self@.0,
    {
        &self.target
    }

    /// The name of the output slot.
    pub fn name(&self) -> (r: &str)
        ensures
            r@ == self@.1,
    {
        self.name.as_str()
    }

    /// Whether two references are to the same slot of the same target.
    pub fn same(&self, other: &Output) -> (r: bool)
        ensures
            r == (self@ == other@),
    {
        self.target.same(&other.target) && self.name == other.name
    }

    /// The reference as text, with the slot written out.
    pub fn to_string(&self) -> (r: String)
        ensures
            r@ == output_text(self@),
    {
        proof {
            reveal_strlit(":");
        }
        let mut out = self.target.to_string();
        out.append(":");
        out.append(self.name.as_str());
        out
    }

}

impl TargetPath {
    /// The reference to the output slot `slot` of this target, where `slot`
    /// is an identifier.
    pub fn output(&self, slot: &str) -> (r: Result<Output, Error>)
        ensures
            is_ident(slot@) ==> r is Ok && r->Ok_0@ == (self@, slot@) && r->Ok_0.wf(),
            !is_ident(slot@) ==> r matches Err(Error::InvalidFormat),
    {
        Output::new(self.clone(), slot)
    }
}

/// An output reference holds at most one `:`: what stands in front of its
/// last `:` is an address, and an address holds none.
pub proof fn lemma_one_colon(s: Seq<char>)
    requires
        parse_output(s) is Some,
    ensures
        match last_pos(s, ':') {
            Some(k) => lacks(s.take(k), ':') && lacks(s.skip(k + 1), ':'),
            None => lacks(s, ':'),
        },
{
    match last_pos(s, ':') {
        Some(k) => {
            let t = s.take(k);
            assert forall|i: int| 0 <= i < t.len() implies #[trigger] t[i] != ':' by {}
        },
        None => {
            if !lacks(s, ':') {
                crate::text::lemma_some_last(s, ':');
            }
        },
    }
}

/// Writing a reference and reading it again changes nothing: the text of a
/// well-formed target and an identifier as slot is a reference to that slot
/// of that target.
pub proof fn lemma_output_round_trip(key: OutputKey)
    requires
        valid_address(key.0),
        is_ident(key.1),
    ensures
        parse_output(output_text(key)) == Some(key),
{
    let s = output_text(key);
    let k = key.0.len() as int;
    lemma_last_pos(s, ':', k);
}

/// The name of the slot that a reference without a slot means.
pub proof fn lemma_default_has_no_colon()
    ensures
        lacks("default"@, ':'),
        "default"@.len() == 7,
{
    reveal_strlit("default");
}

} // verus!
