use std::ops::Range;
use vstd::prelude::*;

verus! {

pub type FileId = u32;

pub type LineId = u32;

pub type CorpusPos = u32;

pub type CorpusToken = u32;

/// Which Python constructs normalization removes before matching.
#[derive(Debug, Clone, Copy, PartialEq, Eq, Structural)]
pub struct NormalizationOptions {
    pub ignore_comments: bool,
    pub ignore_docstrings: bool,
    pub ignore_imports: bool,
    pub ignore_signatures: bool,
}

impl Default for NormalizationOptions {
    fn default() -> (options: Self)
        ensures
            options.ignore_comments && options.ignore_docstrings,
            options.ignore_imports && options.ignore_signatures,
    {
        NormalizationOptions {
            ignore_comments: true,
            ignore_docstrings: true,
            ignore_imports: true,
            ignore_signatures: true,
        }
    }
}

/// Structural kind of the code a normalized line came from.
#[derive(Debug, Clone, Copy, PartialEq, Eq, Structural)]
pub enum StructuralContext {
    Declarative,
    Executable,
    Mixed,
}

/// Structural scope of the code a normalized line came from.
#[derive(Debug, Clone, Copy, PartialEq, Eq, Structural)]
pub enum StructuralScope {
    Module,
    Class,
    Function,
}

/// One file after normalization.
#[derive(Debug, Clone)]
pub struct PreparedFile {
    pub path: String,
    pub source: String,
    pub normalized: String,
    pub lines: Vec<NormalizedLine>,
    pub segments: Vec<NormalizedSegment>,
}

/// One retained line: its byte range inside `PreparedFile::normalized`, its
/// zero-based physical source line, and whether it carries substance.
#[derive(Debug, PartialEq, Eq)]
pub struct NormalizedLine {
    pub text_range: Range<u32>,
    pub source_line: u32,
    pub effective: bool,
    pub context: StructuralContext,
    pub scope: StructuralScope,
}

impl Clone for NormalizedLine {
    fn clone(&self) -> (line: Self)
        ensures
            line == *self,
    {
        NormalizedLine {
            text_range: Range { start: self.text_range.start, end: self.text_range.end },
            source_line: self.source_line,
            effective: self.effective,
            context: self.context,
            scope: self.scope,
        }
    }
}

/// A maximal run of normalized lines not interrupted by a suppression.
#[derive(Debug, Clone, Copy, PartialEq, Eq, Structural)]
pub struct NormalizedSegment {
    pub start: u32,
    pub end: u32,
}

/// One copy of a duplicated block, in normalized-line coordinates.
#[derive(Debug, Clone, Copy, PartialEq, Eq, Structural)]
pub struct Occurrence {
    pub file: FileId,
    pub normalized_start: u32,
    pub normalized_len: u32,
}

/// A set of occurrences that are equal after normalization.
#[derive(Debug, PartialEq, Eq)]
pub struct DuplicateGroup {
    pub effective_lines: u32,
    pub normalized_len: u32,
    pub occurrences: Vec<Occurrence>,
}

/// `a` and `b` hold the same values.
pub open spec fn same_group(a: DuplicateGroup, b: DuplicateGroup) -> bool {
    &&& a.effective_lines == b.effective_lines
    &&& a.normalized_len == b.normalized_len
    &&& a.occurrences@ == b.occurrences@
}

/// Copies of the occurrences in `occurrences`.
pub fn copy_occurrences(occurrences: &Vec<Occurrence>) -> (copy: Vec<Occurrence>)
    ensures
        copy@ == occurrences@,
{
    let mut copy: Vec<Occurrence> = Vec::new();
    let mut i: usize = 0;
    while i < occurrences.len()
        invariant
            i <= occurrences@.len(),
            copy@ == occurrences@.take(i as int),
        decreases occurrences@.len() - i,
    {
        copy.push(occurrences[i]);
        proof {
            assert(occurrences@.take(i + 1) =~= occurrences@.take(i as int).push(occurrences@[i as int]));
        }
        i = i + 1;
    }
    proof {
        assert(occurrences@.take(i as int) =~= occurrences@);
    }
    copy
}

impl Clone for DuplicateGroup {
    fn clone(&self) -> (group: Self)
        ensures
            same_group(group, *self),
    {
        DuplicateGroup {
            effective_lines: self.effective_lines,
            normalized_len: self.normalized_len,
            occurrences: copy_occurrences(&self.occurrences),
        }
    }
}

} // verus!
