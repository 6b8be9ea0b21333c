//! Definitions of targets: what a definition file says of each.

use crate::command::{parse_words, Command};
use crate::error::Error;
use crate::os::{parse_os, Os};
use crate::target::path::{addresses, holds_address, valid_address, TargetPath};
use crate::text::{distinct_texts, has_text, text_set};
use vstd::prelude::*;
use vstd::string::*;

verus! {

/// No address stands twice in `v`.
pub open spec fn distinct_addresses(v: Seq<TargetPath>) -> bool {
    forall|i: int, j: int| 0 <= i < j < v.len() ==> (#[trigger] v[i])@ != (#[trigger] v[j])@
}

/// No slot is named twice in `outs`.
pub open spec fn distinct_slots(outs: Seq<(String, String)>) -> bool {
    forall|i: int, j: int|
        0 <= i < j < outs.len() ==> (#[trigger] outs[i]).0@ != (#[trigger] outs[j]).0@
}

/// `i` is a place in `outs` where the slot `slot` stands.
pub open spec fn is_slot_at(outs: Seq<(String, String)>, slot: Seq<char>, i: int) -> bool {
    0 <= i < outs.len() && outs[i].0@ == slot
}

/// The place of the slot `slot` in `outs`, if it is named there.
pub open spec fn slot_place(outs: Seq<(String, String)>, slot: Seq<char>) -> Option<int> {
    if exists|i: int| is_slot_at(outs, slot, i) {
        Some(choose|i: int| is_slot_at(outs, slot, i))
    } else {
        None
    }
}

/// `outs` with `path` as the path of the slot `slot`: in the place where the
/// slot stood, or behind all others where it is new.
pub open spec fn with_slot(outs: Seq<(String, String)>, slot: String, path: String) -> Seq<
    (String, String),
> {
    match slot_place(outs, slot@) {
        Some(i) => outs.update(i, (slot, path)),
        None => outs.push((slot, path)),
    }
}

/// `v` with `target` behind all others, unless its address stands in `v`
/// already.
pub open spec fn with_address(v: Seq<TargetPath>, target: TargetPath) -> Seq<TargetPath> {
    if addresses(v).contains(target@) {
        v
    } else {
        v.push(target)
    }
}

/// `v` with `text` behind all others, unless it stands in `v` already.
pub open spec fn with_text(v: Seq<String>, text: String) -> Seq<String> {
    if text_set(v).contains(text@) {
        v
    } else {
        v.push(text)
    }
}

/// Among distinct slots a name has one place only.
pub proof fn lemma_slot_place(outs: Seq<(String, String)>, slot: Seq<char>, i: int)
    requires
        distinct_slots(outs),
        is_slot_at(outs, slot, i),
    ensures
        slot_place(outs, slot) == Some(i),
{
}

/// What every target has: its command, what must be built before it, its
/// tags, and where its outputs lie.
#[derive(Debug)]
pub struct Common {
    cmd: Command,
    prereqs: Vec<TargetPath>,
    tags: Vec<String>,
    outs: Vec<(String, String)>,
}

impl Common {
    /// The command, as written.
    pub closed spec fn spec_cmd(&self) -> Command {
        self.cmd
    }

    /// The targets that are built before the command runs, in this order,
    /// whether or not the command refers to them.
    pub closed spec fn spec_prereqs(&self) -> Seq<TargetPath> {
        self.prereqs@
    }

    /// The tags by which a selector finds the target.
    pub closed spec fn spec_tags(&self) -> Seq<String> {
        self.tags@
    }

    /// For each output slot its name and the path of its file, relative to
    /// the directory of the definition file.
    pub closed spec fn spec_outs(&self) -> Seq<(String, String)> {
        self.outs@
    }

    /// What holds of every target: no prerequisite, no tag and no output
    /// slot is named twice.
    #[verifier::type_invariant]
    pub open spec fn wf(&self) -> bool {
        &&& distinct_addresses(self.spec_prereqs())
        &&& distinct_texts(self.spec_tags())
        &&& distinct_slots(self.spec_outs())
    }

    /// A target with the command `cmd`, without prerequisites, tags and
    /// outputs.
    pub fn new(cmd: Command) -> (r: Common)
        ensures
            r.spec_cmd() == cmd,
            r.spec_prereqs().len() == 0,
            r.spec_tags().len() == 0,
            r.spec_outs().len() == 0,
            r.wf(),
    {
        Common { cmd, prereqs: Vec::new(), tags: Vec::new(), outs: Vec::new() }
    }

    /// The command, as written.
    pub fn cmd(&self) -> (r: &Command)
        ensures
            *r == self.spec_cmd(),
    {
        &self.cmd
    }

    /// The prerequisites, in the order in which they are built.
    pub fn prereqs(&self) -> (r: &Vec<TargetPath>)
        ensures
            r@ == self.spec_prereqs(),
            distinct_addresses(r@),
    {
        proof {
            use_type_invariant(self);
        }
        &self.prereqs
    }

    /// The tags.
    pub fn tags(&self) -> (r: &Vec<String>)
        ensures
            r@ == self.spec_tags(),
            distinct_texts(r@),
    {
        proof {
            use_type_invariant(self);
        }
        &self.tags
    }

    /// The output slots, each with the path of its file.
    pub fn outs(&self) -> (r: &Vec<(String, String)>)
        ensures
            r@ == self.spec_outs(),
            distinct_slots(r@),
    {
        proof {
            use_type_invariant(self);
        }
        &self.outs
    }

    /// Makes `target` a prerequisite, the last one, unless it is one
    /// already.
    pub fn require(&mut self, target: TargetPath)
        ensures
            final(self).spec_prereqs() == with_address(old(self).spec_prereqs(), target),
            final(self).spec_cmd() == old(self).spec_cmd(),
            final(self).spec_tags() == old(self).spec_tags(),
            final(self).spec_outs() == old(self).spec_outs(),
    {
        proof {
            use_type_invariant(&*self);
        }
        if !holds_address(&self.prereqs, &target) {
            let mut prereqs: Vec<TargetPath> = Vec::new();
            core::mem::swap(&mut self.prereqs, &mut prereqs);
            let ghost before = prereqs@;
            prereqs.push(target);
            assert(distinct_addresses(prereqs@)) by {
                assert forall|i: int, j: int| 0 <= i < j < prereqs@.len() implies (
                #[trigger] prereqs@[i])@ != (#[trigger] prereqs@[j])@ by {
                    if j == before.len() {
                        assert(addresses(before)[i] == before[i]@);
                    }
                }
            }
            core::mem::swap(&mut self.prereqs, &mut prereqs);
        }
    }

    /// Gives the target the tag `tag`, unless it has it already.
    pub fn tag(&mut self, tag: String)
        ensures
            final(self).spec_tags() == with_text(old(self).spec_tags(), tag),
            final(self).spec_cmd() == old(self).spec_cmd(),
            final(self).spec_prereqs() == old(self).spec_prereqs(),
            final(self).spec_outs() == old(self).spec_outs(),
    {
        proof {
            use_type_invariant(&*self);
        }
        if !has_text(&self.tags, &tag) {
            let mut tags: Vec<String> = Vec::new();
            core::mem::swap(&mut self.tags, &mut tags);
            let ghost before = tags@;
            tags.push(tag);
            assert(distinct_texts(tags@)) by {
                assert forall|i: int, j: int| 0 <= i < j < tags@.len() implies (
                #[trigger] tags@[i])@ != (#[trigger] tags@[j])@ by {}
            }
            core::mem::swap(&mut self.tags, &mut tags);
        }
    }

    /// Declares that the output slot `slot` lies at `path`, relative to the
    /// directory of the definition file. A path declared before for the same
    /// slot is replaced.
    pub fn output(&mut self, slot: String, path: String)
        ensures
            final(self).spec_outs() == with_slot(old(self).spec_outs(), slot, path),
            final(self).spec_cmd() == old(self).spec_cmd(),
            final(self).spec_prereqs() == old(self).spec_prereqs(),
            final(self).spec_tags() == old(self).spec_tags(),
    {
        proof {
            use_type_invariant(&*self);
        }
        let found = find_slot(&self.outs, &slot);
        let mut outs: Vec<(String, String)> = Vec::new();
        core::mem::swap(&mut self.outs, &mut outs);
        let ghost before = outs@;
        match found {
            Some(i) => {
                outs.set(i, (slot, path));
            },
            None => {
                outs.push((slot, path));
                assert(distinct_slots(outs@)) by {
                    assert forall|a: int, b: int| 0 <= a < b < outs@.len() implies (
                    #[trigger] outs@[a]).0@ != (#[trigger] outs@[b]).0@ by {
                        if b == before.len() {
                            assert(!is_slot_at(before, slot@, a));
                        }
                    }
                }
            },
        }
        core::mem::swap(&mut self.outs, &mut outs);
    }
}

/// The place of the slot `slot` in `outs`, if it is named there.
fn find_slot(outs: &Vec<(String, String)>, slot: &String) -> (r: Option<usize>)
    requires
        distinct_slots(outs@),
    ensures
        match r {
            Some(i) => slot_place(outs@, slot@) == Some(i as int) && i < outs.len(),
            None => slot_place(outs@, slot@) is None,
        },
{
    let mut i: usize = 0;
    while i < outs.len()
        invariant
            i <= outs.len(),
            distinct_slots(outs@),
            forall|j: int| 0 <= j < i ==> !is_slot_at(outs@, slot@, j),
        decreases outs.len() - i,
    {
        if outs[i].0 == *slot {
            proof {
                lemma_slot_place(outs@, slot@, i as int);
            }
            return Some(i);
        }
        i += 1;
    }
    None
}

/// A target that only runs its command.
#[derive(Debug)]
pub struct Task {
    pub common: Common,
}

/// A target that makes files out of sources.
#[derive(Debug)]
pub struct Build {
    srcs: Vec<String>,
    runs_on: Option<Os>,
    common: Common,
}

impl Build {
    /// The declared inputs.
    pub closed spec fn spec_srcs(&self) -> Seq<String> {
        self.srcs@
    }

    /// The platform that the command needs, if it needs one.
    pub closed spec fn spec_runs_on(&self) -> Option<Os> {
        self.runs_on
    }

    /// What the build shares with every other target.
    pub closed spec fn spec_common(&self) -> Common {
        self.common
    }

    /// What holds of every build: no source is named twice.
    #[verifier::type_invariant]
    pub open spec fn wf(&self) -> bool {
        distinct_texts(self.spec_srcs())
    }

    /// A build without sources.
    pub fn new(common: Common, runs_on: Option<Os>) -> (r: Build)
        ensures
            r.spec_common() == common,
            r.spec_runs_on() == runs_on,
            r.spec_srcs().len() == 0,
    {
        Build { srcs: Vec::new(), runs_on, common }
    }

    /// The declared inputs.
    pub fn srcs(&self) -> (r: &Vec<String>)
        ensures
            r@ == self.spec_srcs(),
            distinct_texts(r@),
    {
        proof {
            use_type_invariant(self);
        }
        &self.srcs
    }

    /// The platform that the command needs, if it needs one.
    pub fn runs_on(&self) -> (r: Option<Os>)
        ensures
            r == self.spec_runs_on(),
    {
        self.runs_on
    }

    /// What the build shares with every other target.
    pub fn common(&self) -> (r: &Common)
        ensures
            *r == self.spec_common(),
    {
        &self.common
    }

    /// Names `src` as a source, unless it is named already.
    pub fn source(&mut self, src: String)
        ensures
            final(self).spec_srcs() == with_text(old(self).spec_srcs(), src),
            final(self).spec_runs_on() == old(self).spec_runs_on(),
            final(self).spec_common() == old(self).spec_common(),
    {
        proof {
            use_type_invariant(&*self);
        }
        if !has_text(&self.srcs, &src) {
            let mut srcs: Vec<String> = Vec::new();
            core::mem::swap(&mut self.srcs, &mut srcs);
            let ghost before = srcs@;
            srcs.push(src);
            assert(distinct_texts(srcs@)) by {
                assert forall|i: int, j: int| 0 <= i < j < srcs@.len() implies (
                #[trigger] srcs@[i])@ != (#[trigger] srcs@[j])@ by {}
            }
            core::mem::swap(&mut self.srcs, &mut srcs);
        }
    }
}

/// A definition of a target.
#[derive(Debug)]
pub enum TargetDef {
    Task(Task),
    Build(Build),
}

impl TargetDef {
    /// What the definition shares with every other.
    pub open spec fn spec_common(&self) -> Common {
        match self {
            TargetDef::Task(t) => t.common,
            TargetDef::Build(b) => b.spec_common(),
        }
    }

    /// The platform that the target needs, if it needs one. A task needs
    /// none.
    pub open spec fn spec_runs_on(&self) -> Option<Os> {
        match self {
            TargetDef::Task(_) => None,
            TargetDef::Build(b) => b.spec_runs_on(),
        }
    }

    /// What the definition shares with every other.
    pub fn common(&self) -> (r: &Common)
        ensures
            *r == self.spec_common(),
    {
        match self {
            TargetDef::Task(t) => &t.common,
            TargetDef::Build(b) => b.common(),
        }
    }

    /// The build behind the definition, if it is one.
    pub fn as_build(&self) -> (r: Option<&Build>)
        ensures
            match self {
                TargetDef::Task(_) => r is None,
                TargetDef::Build(b) => r == Some(b),
            },
    {
        match self {
            TargetDef::Build(b) => Some(b),
            TargetDef::Task(_) => None,
        }
    }

    /// The platform that the target needs, if it needs one.
    pub fn runs_on(&self) -> (r: Option<Os>)
        ensures
            r == self.spec_runs_on(),
    {
        match self {
            TargetDef::Task(_) => None,
            TargetDef::Build(b) => b.runs_on(),
        }
    }
}

/// The texts of `v`, in order.
pub open spec fn texts(v: Seq<String>) -> Seq<Seq<char>> {
    Seq::new(v.len(), |i: int| v[i]@)
}

/// Every text of `s` is a well-formed address.
pub open spec fn all_addresses(s: Seq<Seq<char>>) -> bool {
    forall|i: int| 0 <= i < s.len() ==> valid_address(#[trigger] s[i])
}

/// The members of `s`, each once, in the order in which they first occur.
pub open spec fn once(s: Seq<Seq<char>>) -> Seq<Seq<char>>
    decreases s.len(),
{
    if s.len() == 0 {
        Seq::empty()
    } else {
        let before = once(s.drop_last());
        if before.contains(s.last()) {
            before
        } else {
            before.push(s.last())
        }
    }
}

/// The texts of `v`, each once, in the order in which they first occur.
pub open spec fn texts_once(v: Seq<String>) -> Seq<String>
    decreases v.len(),
{
    if v.len() == 0 {
        Seq::empty()
    } else {
        with_text(texts_once(v.drop_last()), v.last())
    }
}

/// The slots of `outs`, each once and with the path that was given last for
/// it, in the order in which they first occur.
pub open spec fn slots_once(outs: Seq<(String, String)>) -> Seq<(String, String)>
    decreases outs.len(),
{
    if outs.len() == 0 {
        Seq::empty()
    } else {
        with_slot(slots_once(outs.drop_last()), outs.last().0, outs.last().1)
    }
}

/// `common` is what a definition with these parts says: the command is
/// parsed, every prerequisite is an address, and nothing is named twice.
pub open spec fn describes(
    common: Common,
    cmd: Seq<char>,
    prereqs: Seq<String>,
    tags: Seq<String>,
    outs: Seq<(String, String)>,
) -> bool {
    &&& common.spec_cmd()@ == parse_words(cmd)
    &&& addresses(common.spec_prereqs()) == once(texts(prereqs))
    &&& common.spec_tags() == texts_once(tags)
    &&& common.spec_outs() == slots_once(outs)
}

/// What a definition with these parts has in common with every other, if
/// every prerequisite is a well-formed address.
pub fn common_of(
    cmd: &str,
    prereqs: &Vec<String>,
    tags: &Vec<String>,
    outs: &Vec<(String, String)>,
) -> (r: Result<Common, Error>)
    ensures
        match r {
            Ok(common) => all_addresses(texts(prereqs@)) && describes(
                common,
                cmd@,
                prereqs@,
                tags@,
                outs@,
            ),
            Err(e) => e matches Error::InvalidFormat && !all_addresses(texts(prereqs@)),
        },
{
    let mut common = Common::new(Command::from_str(cmd));
    let ghost command = common.spec_cmd();
    let mut i: usize = 0;
    while i < prereqs.len()
        invariant
            i <= prereqs.len(),
            common.spec_cmd() == command,
            common.spec_tags().len() == 0,
            common.spec_outs().len() == 0,
            all_addresses(texts(prereqs@).take(i as int)),
            addresses(common.spec_prereqs()) == once(texts(prereqs@).take(i as int)),
        decreases prereqs.len() - i,
    {
        let ghost done = texts(prereqs@).take(i as int);
        let ghost next = texts(prereqs@).take(i + 1);
        proof {
            assert(next.drop_last() =~= done);
            assert(next.last() == prereqs@[i as int]@);
        }
        match TargetPath::from_str(prereqs[i].as_str()) {
            Ok(target) => {
                let ghost before = common.spec_prereqs();
                common.require(target);
                proof {
                    if !addresses(before).contains(target@) {
                        assert(addresses(before.push(target)) =~= addresses(before).push(
                            target@,
                        ));
                    }
                    assert forall|k: int| 0 <= k < next.len() implies valid_address(
                        #[trigger] next[k],
                    ) by {}
                }
            },
            Err(_) => {
                return Err(Error::InvalidFormat);
            },
        }
        i += 1;
    }
    assert(texts(prereqs@).take(i as int) =~= texts(prereqs@));
    let mut j: usize = 0;
    while j < tags.len()
        invariant
            j <= tags.len(),
            common.spec_cmd() == command,
            addresses(common.spec_prereqs()) == once(texts(prereqs@)),
            common.spec_outs().len() == 0,
            common.spec_tags() == texts_once(tags@.take(j as int)),
        decreases tags.len() - j,
    {
        proof {
            assert(tags@.take(j + 1).drop_last() =~= tags@.take(j as int));
        }
        common.tag(tags[j].clone());
        j += 1;
    }
    assert(tags@.take(j as int) =~= tags@);
    let mut k: usize = 0;
    while k < outs.len()
        invariant
            k <= outs.len(),
            common.spec_cmd() == command,
            addresses(common.spec_prereqs()) == once(texts(prereqs@)),
            common.spec_tags() == texts_once(tags@),
            common.spec_outs() == slots_once(outs@.take(k as int)),
        decreases outs.len() - k,
    {
        proof {
            assert(outs@.take(k + 1).drop_last() =~= outs@.take(k as int));
        }
        common.output(outs[k].0.clone(), outs[k].1.clone());
        k += 1;
    }
    assert(outs@.take(k as int) =~= outs@);
    Ok(common)
}

/// The platform that the name `runs_on` stands for, where a name is given.
pub open spec fn platform_of(runs_on: Option<&str>) -> Option<Option<Os>> {
    match runs_on {
        None => Some(None),
        Some(name) => match parse_os(name@) {
            Some(os) => Some(Some(os)),
            None => None,
        },
    }
}

/// The definition of a task with these parts, if every prerequisite is a
/// well-formed address.
pub fn task(
    cmd: &str,
    prereqs: &Vec<String>,
    tags: &Vec<String>,
    outs: &Vec<(String, String)>,
) -> (r: Result<TargetDef, Error>)
    ensures
        match r {
            Ok(def) => def is Task && all_addresses(texts(prereqs@)) && describes(
                def.spec_common(),
                cmd@,
                prereqs@,
                tags@,
                outs@,
            ),
            Err(e) => e matches Error::InvalidFormat && !all_addresses(texts(prereqs@)),
        },
{
    match common_of(cmd, prereqs, tags, outs) {
        Ok(common) => Ok(TargetDef::Task(Task { common })),
        Err(e) => Err(e),
    }
}

/// The definition of a build with these parts, if every prerequisite is a
/// well-formed address and `runs_on`, where it is given, names a platform.
pub fn build(
    cmd: &str,
    srcs: &Vec<String>,
    outs: &Vec<(String, String)>,
    runs_on: Option<&str>,
    prereqs: &Vec<String>,
    tags: &Vec<String>,
) -> (r: Result<TargetDef, Error>)
    ensures
        match r {
            Ok(def) => def matches TargetDef::Build(b) && all_addresses(texts(prereqs@))
                && platform_of(runs_on) == Some(b.spec_runs_on()) && b.spec_srcs() == texts_once(
                srcs@,
            ) && describes(def.spec_common(), cmd@, prereqs@, tags@, outs@),
            Err(e) => e matches Error::InvalidFormat && (!all_addresses(texts(prereqs@))
                || platform_of(runs_on) is None),
        },
{
    let common = match common_of(cmd, prereqs, tags, outs) {
        Ok(common) => common,
        Err(e) => {
            return Err(e);
        },
    };
    let platform = match runs_on {
        Some(name) => match Os::from_str(name) {
            Ok(os) => Some(os),
            Err(e) => {
                return Err(Error::InvalidFormat);
            },
        },
        None => None,
    };
    let mut build = Build::new(common, platform);
    let mut i: usize = 0;
    while i < srcs.len()
        invariant
            i <= srcs.len(),
            build.spec_common() == common,
            build.spec_runs_on() == platform,
            build.spec_srcs() == texts_once(srcs@.take(i as int)),
        decreases srcs.len() - i,
    {
        proof {
            assert(srcs@.take(i + 1).drop_last() =~= srcs@.take(i as int));
        }
        build.source(srcs[i].clone());
        i += 1;
    }
    assert(srcs@.take(i as int) =~= srcs@);
    Ok(TargetDef::Build(build))
}

/// The path of the file `file` beside the file at `source`: in the
/// directory of `source`; `None` where `source` names no directory.
pub open spec fn beside(source: Seq<char>, file: Seq<char>) -> Option<Seq<char>> {
    match crate::text::last_pos(source, '/') {
        Some(k) => Some(source.take(k) + seq!['/'] + file),
        None => None,
    }
}

/// The path of the file `file` in the directory of the file at `source`.
pub fn local_file(source: &str, file: &str) -> (r: Option<String>)
    ensures
        match beside(source@, file@) {
            Some(path) => r is Some && r->Some_0@ == path,
            None => r is None,
        },
{
    let v = crate::text::to_chars(source);
    match crate::text::last_index(&v, '/') {
        Some(k) => {
            proof {
                reveal_strlit("/");
            }
            let mut out = String::from_str(source.substring_char(0, k));
            out.append("/");
            out.append(file);
            Some(out)
        },
        None => None,
    }
}

} // verus!
