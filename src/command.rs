use vstd::prelude::*;

verus! {

/// A record persisted in a log segment.
#[derive(Debug, Clone)]
pub enum Command {
    SetValue(String, String),
    Remove(String),
}

impl Command {
    /// The short name of the record's kind.
    pub fn kind(&self) -> (r: &'static str)
        ensures
            r@ == kind_name(self is SetValue),
    {
        proof {
            reveal_strlit("set");
            reveal_strlit("rm");
        }
        match self {
            Command::SetValue(_, _) => "set",
            Command::Remove(_) => "rm",
        }
    }
}

/// `"set"` for a `Set` record, `"rm"` for a `Remove` record.
pub open spec fn kind_name(is_set: bool) -> Seq<char> {
    if is_set { seq!['s', 'e', 't'] } else { seq!['r', 'm'] }
}

/// Where one encoded record lies: its generation, its first byte and its length.
#[derive(Debug, Clone, Copy, PartialEq, Eq, Structural)]
pub struct CommandPointer {
    pub gen: usize,
    pub start: usize,
    pub length: usize,
}

impl CommandPointer {
    /// Points at the bytes `range.start..range.end` of generation `gen`.
    pub fn new(gen: usize, range: std::ops::Range<usize>) -> (r: Self)
        requires
            range.start <= range.end,
        ensures
            r == (CommandPointer { gen, start: range.start, length: (range.end - range.start) as usize }),
    {
        CommandPointer { gen, start: range.start, length: range.end - range.start }
    }

    /// The offset of the record's first byte.
    pub fn start(&self) -> (r: usize)
        ensures
            r == self.start,
    {
        self.start
    }

    /// The record's length in bytes.
    pub fn len(&self) -> (r: usize)
        ensures
            r == self.length,
    {
        self.length
    }

    /// The generation of the segment that holds the record.
    pub fn gen(&self) -> (r: usize)
        ensures
            r == self.gen,
    {
        self.gen
    }
}

} // verus!
