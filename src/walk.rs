use vstd::prelude::*;

verus! {

/// What reading the next entry of the innermost open directory produced.
pub enum Entry {
    /// A regular file with this name.
    File(String),
    /// A directory with this name, opened for reading.
    Dir(String),
    /// Listing the directory, reading the entry's metadata, or opening it failed.
    Failed,
    /// An entry that is neither a file nor a directory.
    Other,
    /// The directory has no entries left.
    End,
}

/// What the walk makes of an entry.
pub enum Step {
    /// A file was found at this path, relative to the root.
    Found(Vec<String>),
    /// The entry could not be used; the walk goes on with its siblings.
    Error,
    /// A nested directory was opened and is now the innermost one.
    Descend,
    /// The innermost directory was finished and closed.
    Ascend,
}

/// Which error a relative path could not be derived for.
#[derive(PartialEq, Eq, Structural, Clone, Copy, Debug)]
pub enum PathError {
    /// A single-file root whose path has no last component.
    NoFileName,
}

/// A depth-first walk of a directory tree, kept as a stack with one frame per
/// open directory. Each frame holds the path of that directory relative to the
/// root; the innermost directory is on top. The directory readers themselves
/// are held by the caller, one per frame, in the same order.
pub struct Walker {
    pub frames: Vec<Vec<String>>,
}

impl Walker {
    /// A walk of a root directory that has just been opened: one frame, whose
    /// relative path is empty.
    pub fn new() -> (w: Walker)
        ensures
            w.frames@.len() == 1,
            w.frames@[0]@ == Seq::<String>::empty(),
    {
        let mut frames: Vec<Vec<String>> = Vec::new();
        frames.push(Vec::new());
        Walker { frames }
    }

    /// The walk has closed every directory, the root included.
    pub fn is_done(&self) -> (r: bool)
        ensures
            r == (self.frames@.len() == 0),
    {
        self.frames.len() == 0
    }

    /// Takes the next entry of the innermost open directory. A file yields its
    /// path relative to the root; a directory becomes the new innermost frame;
    /// an unusable entry yields an error and leaves the stack as it was; the end
    /// of a directory closes its frame.
    pub fn step(&mut self, e: Entry) -> (s: Step)
        requires
            old(self).frames@.len() > 0,
        ensures
            ({
                let before = old(self).frames@;
                let after = final(self).frames@;
                let top = before.last()@;
                match e {
                    Entry::File(name) => after == before && (s matches Step::Found(p) && p@
                        == top.push(name)),
                    Entry::Dir(name) => after.len() == before.len() + 1 && after.drop_last()
                        == before && after.last()@ == top.push(name) && s is Descend,
                    Entry::Failed => after == before && s is Error,
                    Entry::Other => after == before && s is Error,
                    Entry::End => after == before.drop_last() && s is Ascend,
                }
            }),
    {
        let last = self.frames.len() - 1;
        match e {
            Entry::File(name) => {
                let mut p = self.frames[last].clone();
                p.push(name);
                Step::Found(p)
            },
            Entry::Dir(name) => {
                let mut p = self.frames[last].clone();
                p.push(name);
                self.frames.push(p);
                Step::Descend
            },
            Entry::Failed => Step::Error,
            Entry::Other => Step::Error,
            Entry::End => {
                self.frames.pop();
                Step::Ascend
            },
        }
    }
}

/// The path under which a file given directly as a root is written: its last
/// component alone, the directories before it dropped.
pub fn file_root_relative(file: &Vec<String>) -> (r: Result<Vec<String>, PathError>)
    ensures
        file@.len() == 0 <==> r is Err,
        r matches Ok(v) ==> v@ == seq![file@.last()],
{
    if file.len() == 0 {
        Err(PathError::NoFileName)
    } else {
        let mut v: Vec<String> = Vec::new();
        v.push(file[file.len() - 1].clone());
        Ok(v)
    }
}

/// The path an output is written to: the output directory followed by the
/// input's relative path.
pub fn destination(out_dir: &Vec<String>, rel: &Vec<String>) -> (d: Vec<String>)
    ensures
        d@ == out_dir@ + rel@,
{
    let mut d: Vec<String> = Vec::new();
    let mut i: usize = 0;
    while i < out_dir.len()
        invariant
            i <= out_dir@.len(),
            d@ == out_dir@.subrange(0, i as int),
        decreases out_dir@.len() - i,
    {
        d.push(out_dir[i].clone());
        i = i + 1;
        proof {
            assert(d@ =~= out_dir@.subrange(0, i as int));
        }
    }
    let mut j: usize = 0;
    while j < rel.len()
        invariant
            i == out_dir@.len(),
            j <= rel@.len(),
            d@ == out_dir@ + rel@.subrange(0, j as int),
        decreases rel@.len() - j,
    {
        d.push(rel[j].clone());
        j = j + 1;
        proof {
            assert(d@ =~= out_dir@ + rel@.subrange(0, j as int));
        }
    }
    proof {
        assert(out_dir@.subrange(0, i as int) =~= out_dir@);
        assert(rel@.subrange(0, j as int) =~= rel@);
    }
    d
}

} // verus!
