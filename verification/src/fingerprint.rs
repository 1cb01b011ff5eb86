use vstd::prelude::*;

use crate::baseline::{
    be32, hex_lower, hex_text, line_bytes, lines_message, lines_valid, occurrence_lines, occurrence_valid,
    push_be32, push_lines_message, sha256, sha256_of, BaselineError,
};
use crate::corpus::{line_range_valid, Corpus};
use crate::model::{DuplicateGroup, PreparedFile};

verus! {

/// Why a finding's fingerprint could not be computed.
#[derive(Debug, PartialEq, Eq)]
pub enum FingerprintError {
    EmptyGroup,
    InvalidFile { file: u32 },
    InvalidOccurrenceRange { path: String, start: u32, length: u32 },
    InvalidLineRange { path: String, start: u32, end: u32 },
    LineTooLong,
}

/// The bytes that open every finding fingerprint message:
/// `arid-finding-v1` and a NUL.
pub open spec fn finding_domain() -> Seq<u8> {
    seq![97u8, 114, 105, 100, 45, 102, 105, 110, 100, 105, 110, 103, 45, 118, 49, 0]
}

/// What a finding's fingerprint digests: the domain, the effective and
/// normalized line counts, and the lines `start..end` of `file`.
pub open spec fn finding_message(
    file: PreparedFile,
    effective_lines: u32,
    normalized_len: u32,
    start: int,
    end: int,
) -> Seq<u8> {
    finding_domain() + be32(effective_lines) + be32(normalized_len) + lines_message(file, start, end)
}

/// `arid-finding-v1:sha256:` and the digest of the message in lowercase hex.
pub open spec fn finding_fingerprint_text(
    file: PreparedFile,
    effective_lines: u32,
    normalized_len: u32,
    start: int,
    end: int,
) -> Seq<char> {
    "arid-finding-v1:sha256:"@ + hex_lower(sha256_of(finding_message(file, effective_lines, normalized_len, start, end)))
}

/// The normalized text of lines `start..end` of `file`, as bytes per line.
pub open spec fn block_lines(file: PreparedFile, start: int, end: int) -> Seq<Seq<u8>> {
    Seq::new((end - start) as nat, |k: int| line_bytes(file, start + k))
}

/// The stable identity of one exact normalized duplicate block: a SHA-256
/// digest of a domain tag, the group's effective and normalized line
/// counts, and the lines of its first occurrence. Paths, physical source
/// lines and the other occurrences do not enter it.
pub fn finding_fingerprint(corpus: &Corpus, group: &DuplicateGroup) -> (result: Result<String, FingerprintError>)
    ensures
        result is Ok <==> group.occurrences@.len() > 0 && occurrence_valid(*corpus, *group, group.occurrences@[0])
            && lines_valid(
            corpus.files@[group.occurrences@[0].file as int],
            group.occurrences@[0].normalized_start as int,
            group.occurrences@[0].normalized_start + group.occurrences@[0].normalized_len,
        ),
        result matches Ok(fingerprint) ==> fingerprint@ == finding_fingerprint_text(
            corpus.files@[group.occurrences@[0].file as int],
            group.effective_lines,
            group.normalized_len,
            group.occurrences@[0].normalized_start as int,
            group.occurrences@[0].normalized_start + group.occurrences@[0].normalized_len,
        ),
        group.occurrences@.len() == 0 ==> result == Err::<String, FingerprintError>(FingerprintError::EmptyGroup),
        group.occurrences@.len() > 0 && group.occurrences@[0].file >= corpus.files@.len() ==> result == Err::<
            String,
            FingerprintError,
        >(FingerprintError::InvalidFile { file: group.occurrences@[0].file }),
        group.occurrences@.len() > 0 && group.occurrences@[0].file < corpus.files@.len() && !occurrence_valid(
            *corpus,
            *group,
            group.occurrences@[0],
        ) ==> result == Err::<String, FingerprintError>(
            FingerprintError::InvalidOccurrenceRange {
                path: corpus.files@[group.occurrences@[0].file as int].path,
                start: group.occurrences@[0].normalized_start,
                length: group.occurrences@[0].normalized_len,
            },
        ),
        result matches Err(FingerprintError::InvalidLineRange { path, start, end }) ==> path
            == corpus.files@[group.occurrences@[0].file as int].path,
{
    if group.occurrences.len() == 0 {
        return Err(FingerprintError::EmptyGroup);
    }
    let occurrence = group.occurrences[0];
    let (file_index, start, end) = match occurrence_lines(corpus, group, occurrence) {
        Ok(lines) => lines,
        Err(BaselineError::InvalidFile { file }) => {
            return Err(FingerprintError::InvalidFile { file });
        },
        Err(BaselineError::InvalidOccurrenceRange { path, start, length }) => {
            return Err(FingerprintError::InvalidOccurrenceRange { path, start, length });
        },
        Err(_) => {
            proof {
                assert(false);
            }
            return Err(FingerprintError::EmptyGroup);
        },
    };
    let file = &corpus.files[file_index];
    let domain: [u8; 16] = [97u8, 114, 105, 100, 45, 102, 105, 110, 100, 105, 110, 103, 45, 118, 49, 0];
    let mut message: Vec<u8> = Vec::new();
    let mut d: usize = 0;
    while d < 16
        invariant
            d <= 16,
            domain@ == finding_domain(),
            message@ == finding_domain().take(d as int),
        decreases 16 - d,
    {
        message.push(domain[d]);
        proof {
            assert(finding_domain().take(d + 1) =~= finding_domain().take(d as int).push(domain@[d as int]));
        }
        d = d + 1;
    }
    proof {
        assert(finding_domain().take(16) =~= finding_domain());
    }
    push_be32(&mut message, group.effective_lines);
    push_be32(&mut message, group.normalized_len);
    if let Err(bad) = push_lines_message(&mut message, file, start, end) {
        return Err(
            FingerprintError::InvalidLineRange {
                path: file.path.clone(),
                start: file.lines[bad].text_range.start,
                end: file.lines[bad].text_range.end,
            },
        );
    }
    proof {
        assert(message@ =~= finding_message(*file, group.effective_lines, group.normalized_len, start as int, end as int));
    }
    let digest = sha256(message.as_slice());
    Ok(hex_text("arid-finding-v1:sha256:", &digest))
}

proof fn lemma_lines_message_by_block(f1: PreparedFile, s1: int, e1: int, f2: PreparedFile, s2: int, e2: int)
    requires
        s1 <= e1,
        s2 <= e2,
        e1 - s1 == e2 - s2,
        forall|k: int| 0 <= k < e1 - s1 ==> line_bytes(f1, s1 + k) == #[trigger] line_bytes(f2, s2 + k),
    ensures
        lines_message(f1, s1, e1) == lines_message(f2, s2, e2),
    decreases e1 - s1,
{
    if e1 > s1 {
        let k = e1 - s1 - 1;
        assert(line_bytes(f1, s1 + k) == line_bytes(f2, s2 + k));
        assert(s1 + k == e1 - 1);
        assert(s2 + k == e2 - 1);
        lemma_lines_message_by_block(f1, s1, e1 - 1, f2, s2, e2 - 1);
    }
}

/// A finding's fingerprint depends on the normalized text of its block and
/// its line counts alone: two blocks with the same normalized lines have
/// the same fingerprint, whatever their files, paths, physical line
/// numbers or positions.
pub proof fn law_fingerprint_depends_on_block_only(
    f1: PreparedFile,
    s1: int,
    e1: int,
    f2: PreparedFile,
    s2: int,
    e2: int,
    effective_lines: u32,
    normalized_len: u32,
)
    requires
        s1 <= e1,
        s2 <= e2,
        block_lines(f1, s1, e1) == block_lines(f2, s2, e2),
    ensures
        finding_fingerprint_text(f1, effective_lines, normalized_len, s1, e1) == finding_fingerprint_text(
            f2,
            effective_lines,
            normalized_len,
            s2,
            e2,
        ),
{
    assert(block_lines(f1, s1, e1).len() == e1 - s1);
    assert(block_lines(f2, s2, e2).len() == e2 - s2);
    assert forall|k: int| 0 <= k < e1 - s1 implies line_bytes(f1, s1 + k) == #[trigger] line_bytes(f2, s2 + k) by {
        assert(block_lines(f1, s1, e1)[k] == block_lines(f2, s2, e2)[k]);
    }
    lemma_lines_message_by_block(f1, s1, e1, f2, s2, e2);
}

} // verus!
