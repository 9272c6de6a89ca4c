//! The project schema: a thin, fallible projection from a parsed tree to
//! the file groups and targets the surrounding build tool understands.
//!
//! Recognized top-level keys are `file-groups` and `targets`.  Each names
//! a table whose entries are either a list of file names or a table with
//! optional `groups` and `files` string lists.  Every referenced group
//! must name a file group declared before the reference; keys outside
//! the recognized set are tolerated and reported as unused.

use vstd::prelude::*;

use crate::error::Error;
use crate::token::Pos;
use crate::value::Value;

verus! {

/// Types that can report the keys nothing consumed.
pub trait UnusedKeys {
    fn unused_keys(&self) -> Vec<String>;
}

impl UnusedKeys for String {
    fn unused_keys(&self) -> Vec<String> {
        Vec::new()
    }
}

impl<T: UnusedKeys> UnusedKeys for Vec<T> {
    fn unused_keys(&self) -> Vec<String> {
        let mut out: Vec<String> = Vec::new();
        let mut i: usize = 0;
        while i < self.len()
            decreases self@.len() - i,
        {
            let mut inner = self[i].unused_keys();
            out.append(&mut inner);
            i = i + 1;
        }
        out
    }
}

/// The ways a build target can be linked.
#[derive(Debug, PartialEq, Eq, Structural, Clone, Copy)]
pub enum TargetType {
    Archive,
    Dynamic,
    Binary,
}

impl TargetType {
    /// Parses a target type name: exactly `archive`, `dynamic` or
    /// `binary`.
    pub fn from_str(s: &str) -> (r: Result<TargetType, String>)
        ensures
            s@ == "archive"@ ==> r == Result::<TargetType, String>::Ok(TargetType::Archive),
            s@ == "dynamic"@ ==> r == Result::<TargetType, String>::Ok(TargetType::Dynamic),
            s@ == "binary"@ ==> r == Result::<TargetType, String>::Ok(TargetType::Binary),
            s@ != "archive"@ && s@ != "dynamic"@ && s@ != "binary"@ ==> r is Err,
    {
        proof {
            reveal_strlit("archive");
            reveal_strlit("dynamic");
            reveal_strlit("binary");
            assert("archive"@[0] == 'a' && "dynamic"@[0] == 'd' && "binary"@[0] == 'b');
            assert("archive"@ != "dynamic"@ && "archive"@ != "binary"@ && "dynamic"@
                != "binary"@);
        }
        if crate::chars::str_eq(s, "archive") {
            Ok(TargetType::Archive)
        } else if crate::chars::str_eq(s, "dynamic") {
            Ok(TargetType::Dynamic)
        } else if crate::chars::str_eq(s, "binary") {
            Ok(TargetType::Binary)
        } else {
            Err(String::from_str("unknown target type"))
        }
    }
}

impl UnusedKeys for TargetType {
    fn unused_keys(&self) -> Vec<String> {
        Vec::new()
    }
}

/// A declared group of files, possibly built from earlier groups.
#[derive(Debug)]
pub struct FileGroup {
    pub groups: Vec<String>,
    pub files: Vec<String>,
    pub pos: Pos,
}

/// A build target: the groups and files it is made of.
#[derive(Debug)]
pub struct Target {
    pub groups: Vec<String>,
    pub files: Vec<String>,
    pub pos: Pos,
}

/// A validated project: name-keyed, insertion-ordered file groups and
/// targets, and the top-level keys nothing consumed.
#[derive(Debug)]
pub struct Project {
    pub file_groups: Vec<(String, FileGroup)>,
    pub targets: Vec<(String, Target)>,
    pub unused: Vec<String>,
}

/// Whether `n` names one of the first `upto` file groups.
pub open spec fn declared_in(fgs: Seq<(String, FileGroup)>, n: Seq<char>, upto: int) -> bool {
    exists|i: int| 0 <= i < upto && i < fgs.len() && (#[trigger] fgs[i]).0@ == n
}

/// Every group a project's file groups and targets reference is declared:
/// a file group only references groups declared before it, and a target
/// only references declared file groups.
pub open spec fn spec_project_closed(p: Project) -> bool {
    &&& forall|i: int, j: int|
        0 <= i < p.file_groups@.len() && 0 <= j < (#[trigger] p.file_groups@[i]).1.groups@.len()
            ==> declared_in(p.file_groups@, (#[trigger] p.file_groups@[i].1.groups@[j])@, i)
    &&& forall|i: int, j: int|
        0 <= i < p.targets@.len() && 0 <= j < (#[trigger] p.targets@[i]).1.groups@.len()
            ==> declared_in(
            p.file_groups@,
            (#[trigger] p.targets@[i].1.groups@[j])@,
            p.file_groups@.len() as int,
        )
}

impl UnusedKeys for Project {
    fn unused_keys(&self) -> Vec<String> {
        let mut out: Vec<String> = Vec::new();
        let mut i: usize = 0;
        while i < self.unused.len()
            decreases self.unused@.len() - i,
        {
            out.push(self.unused[i].clone());
            i = i + 1;
        }
        out
    }
}

/// Whether `name` occurs among the names of `fgs`.
fn contains_name(fgs: &Vec<(String, FileGroup)>, name: &str) -> (r: bool)
    ensures
        r == declared_in(fgs@, name@, fgs@.len() as int),
{
    let mut i: usize = 0;
    while i < fgs.len()
        invariant
            0 <= i <= fgs@.len(),
            forall|j: int| 0 <= j < i ==> (#[trigger] fgs@[j]).0@ != name@,
        decreases fgs@.len() - i,
    {
        if crate::chars::str_eq(fgs[i].0.as_str(), name) {
            proof {
                assert(fgs@[i as int].0@ == name@);
            }
            return true;
        }
        i = i + 1;
    }
    false
}

/// Reads an array of strings into `(text, position)` pairs; a non-array
/// or a non-string element is an `IncorrectType` error at the offending
/// node.
fn read_string_list(v: &Value) -> (r: Result<Vec<(String, Pos)>, Error>)
    ensures
        r is Ok ==> v is Array,
        r matches Err(e) ==> e is IncorrectType,
{
    match v.as_list() {
        Some(values) => {
            let mut out: Vec<(String, Pos)> = Vec::new();
            let mut i: usize = 0;
            while i < values.len()
                decreases values@.len() - i,
            {
                match &values[i] {
                    Value::String { value, pos, .. } => {
                        out.push((value.clone(), *pos));
                    },
                    other => {
                        return Err(
                            Error::IncorrectType {
                                got: other.type_str(),
                                expected: "string",
                                position: other.pos(),
                            },
                        );
                    },
                }
                i = i + 1;
            }
            Ok(out)
        },
        None => Err(
            Error::IncorrectType { got: v.type_str(), expected: "array", position: v.pos() },
        ),
    }
}

/// Reads one schema entry: a bare list of files, or a table with optional
/// `groups` and `files` lists.  Returns the groups, the files, and any
/// keys of the entry that the schema does not recognize.
fn read_entry(v: &Value) -> (r: Result<(Vec<(String, Pos)>, Vec<(String, Pos)>, Vec<String>), Error>)
    ensures
        r matches Err(e) ==> e is IncorrectType,
{
    if v.is_array() {
        let files = match read_string_list(v) {
            Ok(l) => l,
            Err(e) => {
                return Err(e);
            },
        };
        return Ok((Vec::new(), files, Vec::new()));
    }
    match v.iter_kvs() {
        Some(kvs) => {
            let mut groups: Vec<(String, Pos)> = Vec::new();
            let mut files: Vec<(String, Pos)> = Vec::new();
            let mut unused: Vec<String> = Vec::new();
            let mut i: usize = 0;
            while i < kvs.len()
                decreases kvs@.len() - i,
            {
                let key = &kvs[i].0;
                if crate::chars::str_eq(key.as_str(), "groups") {
                    groups = match read_string_list(&kvs[i].1) {
                        Ok(l) => l,
                        Err(e) => {
                            return Err(e);
                        },
                    };
                } else if crate::chars::str_eq(key.as_str(), "files") {
                    files = match read_string_list(&kvs[i].1) {
                        Ok(l) => l,
                        Err(e) => {
                            return Err(e);
                        },
                    };
                } else {
                    unused.push(key.clone());
                }
                i = i + 1;
            }
            Ok((groups, files, unused))
        },
        None => Err(
            Error::IncorrectType { got: v.type_str(), expected: "table", position: v.pos() },
        ),
    }
}

/// The texts of a `(text, position)` list.
fn texts_of(list: &Vec<(String, Pos)>) -> (r: Vec<String>)
    ensures
        r@.len() == list@.len(),
        forall|j: int| 0 <= j < r@.len() ==> (#[trigger] r@[j])@ == list@[j].0@,
{
    let mut out: Vec<String> = Vec::new();
    let mut i: usize = 0;
    while i < list.len()
        invariant
            0 <= i <= list@.len(),
            out@.len() == i,
            forall|j: int| 0 <= j < i ==> (#[trigger] out@[j])@ == list@[j].0@,
        decreases list@.len() - i,
    {
        out.push(list[i].0.clone());
        i = i + 1;
    }
    out
}

impl Project {
    /// Projects a parsed tree onto the project schema.
    ///
    /// `file-groups` and `targets` must be tables of entries as
    /// [`read_entry`] reads them; every referenced group must name a file
    /// group declared before the reference, else the projection stops
    /// with `UnknownFileGroup` at the reference.  Unrecognized keys are
    /// collected, not rejected, so a tree without either recognized
    /// section always projects, onto an empty project.  On success every
    /// reference in the project is declared: [`spec_project_closed`]
    /// holds.
    #[verifier::loop_isolation(false)]
    pub fn from_value(root: &Value) -> (r: Result<Project, Error>)
        ensures
            r is Ok ==> spec_project_closed(r->Ok_0),
            !(*root is Table) ==> (r matches Ok(p) && p.file_groups@.len() == 0
                && p.targets@.len() == 0 && p.unused@.len() == 0),
            (*root is Table && crate::value::spec_lookup(
                root->Table_key_values@,
                "file-groups"@,
            ) is None && crate::value::spec_lookup(root->Table_key_values@, "targets"@) is None)
                ==> (r matches Ok(p) && p.file_groups@.len() == 0 && p.targets@.len() == 0),
            r matches Err(e) ==> (e is IncorrectType || e is UnknownFileGroup),
    {
        let mut unused: Vec<String> = Vec::new();
        let mut file_groups: Vec<(String, FileGroup)> = Vec::new();
        let mut targets: Vec<(String, Target)> = Vec::new();
        match root.get("file-groups") {
            Some(fgv) => {
                match fgv.iter_kvs() {
                    Some(kvs) => {
                        let mut i: usize = 0;
                        while i < kvs.len()
                            invariant
                                0 <= i <= kvs@.len(),
                                forall|a: int, c: int|
                                    0 <= a < file_groups@.len() && 0 <= c < (
                                    #[trigger] file_groups@[a]).1.groups@.len() ==> declared_in(
                                        file_groups@,
                                        (#[trigger] file_groups@[a].1.groups@[c])@,
                                        a,
                                    ),
                            decreases kvs@.len() - i,
                        {
                            let entry = read_entry(&kvs[i].1);
                            let (groups, files, un) = match entry {
                                Ok(t) => t,
                                Err(e) => {
                                    return Err(e);
                                },
                            };
                            let mut un = un;
                            unused.append(&mut un);
                            let mut g: usize = 0;
                            while g < groups.len()
                                invariant
                                    0 <= g <= groups@.len(),
                                    forall|c: int|
                                        0 <= c < g ==> declared_in(
                                            file_groups@,
                                            (#[trigger] groups@[c]).0@,
                                            file_groups@.len() as int,
                                        ),
                                decreases groups@.len() - g,
                            {
                                if !contains_name(&file_groups, groups[g].0.as_str()) {
                                    return Err(
                                        Error::UnknownFileGroup {
                                            name: groups[g].0.clone(),
                                            position: groups[g].1,
                                        },
                                    );
                                }
                                g = g + 1;
                            }
                            let fg = FileGroup {
                                groups: texts_of(&groups),
                                files: texts_of(&files),
                                pos: kvs[i].1.pos(),
                            };
                            let ghost before = file_groups@;
                            file_groups.push((kvs[i].0.clone(), fg));
                            proof {
                                lemma_declared_push(before, file_groups@, groups@);
                            }
                            i = i + 1;
                        }
                    },
                    None => {
                        return Err(
                            Error::IncorrectType {
                                got: fgv.type_str(),
                                expected: "table",
                                position: fgv.pos(),
                            },
                        );
                    },
                }
            },
            None => {},
        }
        match root.get("targets") {
            Some(tv) => {
                match tv.iter_kvs() {
                    Some(kvs) => {
                        let mut i: usize = 0;
                        while i < kvs.len()
                            invariant
                                0 <= i <= kvs@.len(),
                                forall|a: int, c: int|
                                    0 <= a < file_groups@.len() && 0 <= c < (
                                    #[trigger] file_groups@[a]).1.groups@.len() ==> declared_in(
                                        file_groups@,
                                        (#[trigger] file_groups@[a].1.groups@[c])@,
                                        a,
                                    ),
                                forall|a: int, c: int|
                                    0 <= a < targets@.len() && 0 <= c < (
                                    #[trigger] targets@[a]).1.groups@.len() ==> declared_in(
                                        file_groups@,
                                        (#[trigger] targets@[a].1.groups@[c])@,
                                        file_groups@.len() as int,
                                    ),
                            decreases kvs@.len() - i,
                        {
                            let entry = read_entry(&kvs[i].1);
                            let (groups, files, un) = match entry {
                                Ok(t) => t,
                                Err(e) => {
                                    return Err(e);
                                },
                            };
                            let mut un = un;
                            unused.append(&mut un);
                            let mut g: usize = 0;
                            while g < groups.len()
                                invariant
                                    0 <= g <= groups@.len(),
                                    forall|c: int|
                                        0 <= c < g ==> declared_in(
                                            file_groups@,
                                            (#[trigger] groups@[c]).0@,
                                            file_groups@.len() as int,
                                        ),
                                decreases groups@.len() - g,
                            {
                                if !contains_name(&file_groups, groups[g].0.as_str()) {
                                    return Err(
                                        Error::UnknownFileGroup {
                                            name: groups[g].0.clone(),
                                            position: groups[g].1,
                                        },
                                    );
                                }
                                g = g + 1;
                            }
                            let tg = Target {
                                groups: texts_of(&groups),
                                files: texts_of(&files),
                                pos: kvs[i].1.pos(),
                            };
                            targets.push((kvs[i].0.clone(), tg));
                            i = i + 1;
                        }
                    },
                    None => {
                        return Err(
                            Error::IncorrectType {
                                got: tv.type_str(),
                                expected: "table",
                                position: tv.pos(),
                            },
                        );
                    },
                }
            },
            None => {},
        }
        match root.iter_kvs() {
            Some(kvs) => {
                let mut i: usize = 0;
                while i < kvs.len()
                    decreases kvs@.len() - i,
                {
                    let key = &kvs[i].0;
                    if !crate::chars::str_eq(key.as_str(), "file-groups") && !crate::chars::str_eq(
                        key.as_str(),
                        "targets",
                    ) {
                        unused.push(key.clone());
                    }
                    i = i + 1;
                }
            },
            None => {},
        }
        Ok(Project { file_groups, targets, unused })
    }
}

/// Appending a file group whose references point into the existing list
/// keeps every earlier reference declared.
proof fn lemma_declared_push(
    before: Seq<(String, FileGroup)>,
    after: Seq<(String, FileGroup)>,
    groups: Seq<(String, Pos)>,
)
    requires
        after.len() == before.len() + 1,
        forall|j: int| 0 <= j < before.len() ==> after[j] == before[j],
        forall|a: int, c: int|
            0 <= a < before.len() && 0 <= c < (#[trigger] before[a]).1.groups@.len()
                ==> declared_in(before, (#[trigger] before[a].1.groups@[c])@, a),
        forall|c: int|
            0 <= c < groups.len() ==> declared_in(
                before,
                (#[trigger] groups[c]).0@,
                before.len() as int,
            ),
        forall|c: int|
            0 <= c < after[before.len() as int].1.groups@.len() ==> (
            #[trigger] after[before.len() as int].1.groups@[c])@ == groups[c].0@,
        after[before.len() as int].1.groups@.len() == groups.len(),
    ensures
        forall|a: int, c: int|
            0 <= a < after.len() && 0 <= c < (#[trigger] after[a]).1.groups@.len() ==> declared_in(
                after,
                (#[trigger] after[a].1.groups@[c])@,
                a,
            ),
{
    assert forall|a: int, c: int|
        0 <= a < after.len() && 0 <= c < (#[trigger] after[a]).1.groups@.len() implies declared_in(
        after,
        (#[trigger] after[a].1.groups@[c])@,
        a,
    ) by {
        if a < before.len() {
            assert(after[a] == before[a]);
            assert(declared_in(before, before[a].1.groups@[c]@, a));
            let w = choose|w: int|
                0 <= w < a && w < before.len() && (#[trigger] before[w]).0@
                    == before[a].1.groups@[c]@;
            assert(after[w] == before[w]);
            assert(declared_in(after, after[a].1.groups@[c]@, a));
        } else {
            assert(after[a].1.groups@[c]@ == groups[c].0@);
            assert(declared_in(before, groups[c].0@, before.len() as int));
            let w = choose|w: int|
                0 <= w < before.len() && (#[trigger] before[w]).0@ == groups[c].0@;
            assert(after[w] == before[w]);
            assert(declared_in(after, after[a].1.groups@[c]@, a));
        }
    }
}

} // verus!
