use vstd::prelude::*;

use crate::chars::same_text;
use crate::config::{join_path, joined_path};
use crate::corpus::Corpus;
use crate::model::{copy_occurrences, DuplicateGroup, PreparedFile};
use crate::order::{bytes_le, bytes_lt, sort_indices_by_text, text_bytes};
use crate::paths::{
    join_slash, normal_component, project_relative_path, relative_result, selector_matches_source, valid_serialized,
    ProjectPathError,
};

verus! {

/// The canonical project-relative form of `path` under `root`, when it
/// has one.
pub open spec fn relative_form(path: Seq<char>, root: Seq<char>) -> Option<Seq<char>> {
    match relative_result(path, root) {
        Some(rel) => if (forall|k: int| 0 <= k < rel.len() ==> normal_component(#[trigger] rel[k])) && valid_serialized(
            join_slash(rel),
        ) {
            Some(join_slash(rel))
        } else {
            None
        },
        None => None,
    }
}

/// Whether `selector` names `source` or a directory above it.
pub open spec fn selects(selector: Seq<char>, source: Seq<char>) -> bool {
    source == selector || (selector.len() < source.len() && source.take(selector.len() as int) == selector
        && source[selector.len() as int] == '/')
}

/// Project-relative source selectors that narrow the reported findings.
#[derive(Debug, Clone, PartialEq, Eq)]
pub struct FocusSet {
    pub selectors: Vec<String>,
}

/// Some selector of `selectors` selects `source`.
pub open spec fn any_selects(selectors: Seq<String>, source: Seq<char>) -> bool {
    exists|k: int| 0 <= k < selectors.len() && selects((#[trigger] selectors[k])@, source)
}

/// The focus keeps the file at `path`.
pub open spec fn focused_path(selectors: Seq<String>, path: Seq<char>, root: Seq<char>) -> bool {
    match relative_form(path, root) {
        Some(rel) => any_selects(selectors, rel),
        None => false,
    }
}

/// The focus keeps a group: one of its occurrences lies in a kept file.
pub open spec fn focused_group(
    selectors: Seq<String>,
    files: Seq<PreparedFile>,
    group: DuplicateGroup,
    root: Seq<char>,
) -> bool {
    exists|o: int|
        0 <= o < group.occurrences@.len() && (#[trigger] group.occurrences@[o]).file < files.len()
            && focused_path(selectors, files[group.occurrences@[o].file as int].path@, root)
}

/// The groups the focus keeps, in order.
pub open spec fn focused_groups(
    selectors: Seq<String>,
    files: Seq<PreparedFile>,
    groups: Seq<DuplicateGroup>,
    root: Seq<char>,
) -> Seq<DuplicateGroup>
    decreases groups.len(),
{
    if groups.len() == 0 {
        seq![]
    } else {
        focused_groups(selectors, files, groups.drop_last(), root) + if focused_group(
            selectors,
            files,
            groups.last(),
            root,
        ) {
            seq![groups.last()]
        } else {
            seq![]
        }
    }
}

/// `a` and `b` hold the same groups, field by field.
pub open spec fn same_groups(a: Seq<DuplicateGroup>, b: Seq<DuplicateGroup>) -> bool {
    a.len() == b.len() && forall|i: int|
        0 <= i < a.len() ==> {
            &&& (#[trigger] a[i]).effective_lines == b[i].effective_lines
            &&& a[i].normalized_len == b[i].normalized_len
            &&& a[i].occurrences@ == b[i].occurrences@
        }
}

/// `a` and `b` hold the same fields.
pub open spec fn same_fields(a: DuplicateGroup, b: DuplicateGroup) -> bool {
    &&& a.effective_lines == b.effective_lines
    &&& a.normalized_len == b.normalized_len
    &&& a.occurrences@ == b.occurrences@
}

proof fn lemma_focused_groups_membership(
    selectors: Seq<String>,
    files: Seq<PreparedFile>,
    groups: Seq<DuplicateGroup>,
    root: Seq<char>,
    i: int,
    o: int,
)
    requires
        0 <= i < groups.len(),
        0 <= o < groups[i].occurrences@.len(),
        groups[i].occurrences@[o].file < files.len(),
        focused_path(selectors, files[groups[i].occurrences@[o].file as int].path@, root),
    ensures
        focused_groups(selectors, files, groups, root).contains(groups[i]),
    decreases groups.len(),
{
    let init = groups.drop_last();
    let prev = focused_groups(selectors, files, init, root);
    if i < groups.len() - 1 {
        assert(init[i] == groups[i]);
        lemma_focused_groups_membership(selectors, files, init, root, i, o);
        let t = choose|t: int| 0 <= t < prev.len() && prev[t] == groups[i];
        assert(focused_groups(selectors, files, groups, root)[t] == groups[i]);
    } else {
        assert(groups.last() == groups[i]);
        assert(focused_group(selectors, files, groups[i], root));
        assert(focused_groups(selectors, files, groups, root)[prev.len() as int] == groups[i]);
    }
}

proof fn lemma_focused_groups_source(
    selectors: Seq<String>,
    files: Seq<PreparedFile>,
    groups: Seq<DuplicateGroup>,
    root: Seq<char>,
    t: int,
)
    requires
        0 <= t < focused_groups(selectors, files, groups, root).len(),
    ensures
        groups.contains(focused_groups(selectors, files, groups, root)[t]),
        exists|o: int|
            0 <= o < focused_groups(selectors, files, groups, root)[t].occurrences@.len() && (
            #[trigger] focused_groups(selectors, files, groups, root)[t].occurrences@[o]).file < files.len()
                && focused_path(
                selectors,
                files[focused_groups(selectors, files, groups, root)[t].occurrences@[o].file as int].path@,
                root,
            ),
    decreases groups.len(),
{
    let init = groups.drop_last();
    let prev = focused_groups(selectors, files, init, root);
    let out = focused_groups(selectors, files, groups, root);
    if t < prev.len() {
        assert(out[t] == prev[t]);
        lemma_focused_groups_source(selectors, files, init, root, t);
        let j = choose|j: int| 0 <= j < init.len() && init[j] == prev[t];
        assert(groups[j] == init[j]);
    } else {
        assert(out[t] == groups.last());
        assert(groups[groups.len() - 1] == groups.last());
    }
}

/// `g` holds the fields of one of `groups` and has an occurrence in a file
/// the focus selects.
pub open spec fn kept_touches_focus(
    selectors: Seq<String>,
    files: Seq<PreparedFile>,
    groups: Seq<DuplicateGroup>,
    root: Seq<char>,
    g: DuplicateGroup,
) -> bool {
    &&& exists|i: int| 0 <= i < groups.len() && same_fields(g, #[trigger] groups[i])
    &&& exists|o: int|
        0 <= o < g.occurrences@.len() && (#[trigger] g.occurrences@[o]).file < files.len() && focused_path(
            selectors,
            files[g.occurrences@[o].file as int].path@,
            root,
        )
}

/// A non-empty focus keeps a group exactly when one of its occurrences,
/// wherever it stands among them, lies in a file some selector selects:
/// every such group is kept, whole, and every kept group is one of the
/// given groups with such an occurrence.
pub proof fn law_focus_keeps_groups_touching_focused_files(
    selectors: Seq<String>,
    files: Seq<PreparedFile>,
    groups: Seq<DuplicateGroup>,
    root: Seq<char>,
    kept: Seq<DuplicateGroup>,
)
    requires
        same_groups(kept, focused_groups(selectors, files, groups, root)),
    ensures
        forall|i: int, o: int|
            0 <= i < groups.len() && 0 <= o < groups[i].occurrences@.len() && (#[trigger] groups[i].occurrences@[o]).file
                < files.len() && focused_path(selectors, files[groups[i].occurrences@[o].file as int].path@, root)
                ==> exists|k: int| 0 <= k < kept.len() && same_fields(#[trigger] kept[k], groups[i]),
        forall|k: int| 0 <= k < kept.len() ==> #[trigger] kept_touches_focus(selectors, files, groups, root, kept[k]),
{
    let out = focused_groups(selectors, files, groups, root);
    assert forall|i: int, o: int|
        0 <= i < groups.len() && 0 <= o < groups[i].occurrences@.len() && (#[trigger] groups[i].occurrences@[o]).file
            < files.len() && focused_path(selectors, files[groups[i].occurrences@[o].file as int].path@, root)
            implies exists|k: int| 0 <= k < kept.len() && same_fields(#[trigger] kept[k], groups[i]) by {
        lemma_focused_groups_membership(selectors, files, groups, root, i, o);
        let t = choose|t: int| 0 <= t < out.len() && out[t] == groups[i];
        assert(same_fields(kept[t], groups[i]));
    }
    assert forall|k: int| 0 <= k < kept.len() implies #[trigger] kept_touches_focus(selectors, files, groups, root, kept[k]) by {
        lemma_focused_groups_source(selectors, files, groups, root, k);
        let i = choose|i: int| 0 <= i < groups.len() && groups[i] == out[k];
        assert(same_fields(kept[k], groups[i]));
        let o = choose|o: int|
            0 <= o < out[k].occurrences@.len() && (#[trigger] out[k].occurrences@[o]).file < files.len() && focused_path(
                selectors,
                files[out[k].occurrences@[o].file as int].path@,
                root,
            );
        assert(kept[k].occurrences@[o] == out[k].occurrences@[o]);
    }
}

impl FocusSet {
    /// The focus that keeps everything.
    pub fn none() -> (focus: Self)
        ensures
            focus.selectors@.len() == 0,
    {
        FocusSet { selectors: Vec::new() }
    }

    /// The selectors, sorted and distinct.
    pub fn selectors(&self) -> (selectors: &Vec<String>)
        ensures
            selectors == &self.selectors,
    {
        &self.selectors
    }

    /// True when a selector names `source` or a directory above it.
    pub fn matches_source(&self, source: &str) -> (found: bool)
        ensures
            found == any_selects(self.selectors@, source@),
    {
        let mut k: usize = 0;
        while k < self.selectors.len()
            invariant
                k <= self.selectors@.len(),
                forall|j: int| 0 <= j < k ==> !selects((#[trigger] self.selectors@[j])@, source@),
            decreases self.selectors@.len() - k,
        {
            if selector_matches_source(self.selectors[k].as_str(), source) {
                return true;
            }
            k = k + 1;
        }
        false
    }

    /// Keeps the groups with an occurrence in a file the focus selects; an
    /// empty focus keeps every group. Kept groups stay whole.
    pub fn filter_groups(&self, corpus: &Corpus, groups: Vec<DuplicateGroup>, project_root: &str) -> (kept: Vec<
        DuplicateGroup,
    >)
        ensures
            self.selectors@.len() == 0 ==> kept@ == groups@,
            self.selectors@.len() > 0 ==> same_groups(
                kept@,
                focused_groups(self.selectors@, corpus.files@, groups@, project_root@),
            ),
    {
        if self.selectors.len() == 0 {
            return groups;
        }
        let mut focused: Vec<bool> = Vec::new();
        let mut i: usize = 0;
        while i < corpus.files.len()
            invariant
                i <= corpus.files@.len(),
                focused@.len() == i,
                forall|j: int|
                    0 <= j < i ==> #[trigger] focused@[j] == focused_path(
                        self.selectors@,
                        corpus.files@[j].path@,
                        project_root@,
                    ),
            decreases corpus.files@.len() - i,
        {
            let keep = match project_relative_path(corpus.files[i].path.as_str(), project_root) {
                Ok(relative) => self.matches_source(relative.as_str()),
                Err(_) => false,
            };
            focused.push(keep);
            i = i + 1;
        }
        let mut kept: Vec<DuplicateGroup> = Vec::new();
        let mut g: usize = 0;
        while g < groups.len()
            invariant
                g <= groups@.len(),
                focused@.len() == corpus.files@.len(),
                forall|j: int|
                    0 <= j < focused@.len() ==> #[trigger] focused@[j] == focused_path(
                        self.selectors@,
                        corpus.files@[j].path@,
                        project_root@,
                    ),
                same_groups(kept@, focused_groups(self.selectors@, corpus.files@, groups@.take(g as int), project_root@)),
            decreases groups@.len() - g,
        {
            let group = &groups[g];
            let mut hit = false;
            let mut o: usize = 0;
            while o < group.occurrences.len()
                invariant
                    o <= group.occurrences@.len(),
                    focused@.len() == corpus.files@.len(),
                    forall|j: int|
                        0 <= j < focused@.len() ==> #[trigger] focused@[j] == focused_path(
                            self.selectors@,
                            corpus.files@[j].path@,
                            project_root@,
                        ),
                    hit == exists|t: int|
                        0 <= t < o && (#[trigger] group.occurrences@[t]).file < corpus.files@.len() && focused_path(
                            self.selectors@,
                            corpus.files@[group.occurrences@[t].file as int].path@,
                            project_root@,
                        ),
                decreases group.occurrences@.len() - o,
            {
                let file = group.occurrences[o].file as usize;
                if file < focused.len() && focused[file] {
                    hit = true;
                }
                proof {
                    if !hit {
                        assert forall|t: int|
                            0 <= t < o + 1 && (#[trigger] group.occurrences@[t]).file < corpus.files@.len() implies !focused_path(
                            self.selectors@,
                            corpus.files@[group.occurrences@[t].file as int].path@,
                            project_root@,
                        ) by {
                            if t == o {
                                assert(focused@[file as int] == focused_path(
                                    self.selectors@,
                                    corpus.files@[file as int].path@,
                                    project_root@,
                                ));
                            }
                        }
                    }
                }
                o = o + 1;
            }
            proof {
                assert(groups@.take(g + 1).drop_last() =~= groups@.take(g as int));
                assert(groups@.take(g + 1).last() == groups@[g as int]);
            }
            let ghost before = kept@;
            if hit {
                kept.push(
                    DuplicateGroup {
                        effective_lines: group.effective_lines,
                        normalized_len: group.normalized_len,
                        occurrences: copy_occurrences(&group.occurrences),
                    },
                );
                proof {
                    let target = focused_groups(self.selectors@, corpus.files@, groups@.take(g + 1), project_root@);
                    assert forall|i: int| 0 <= i < kept@.len() implies {
                        &&& (#[trigger] kept@[i]).effective_lines == target[i].effective_lines
                        &&& kept@[i].normalized_len == target[i].normalized_len
                        &&& kept@[i].occurrences@ == target[i].occurrences@
                    } by {
                        if i < before.len() {
                            assert(kept@[i] == before[i]);
                        }
                    }
                }
            } else {
                proof {
                    assert(focused_groups(self.selectors@, corpus.files@, groups@.take(g + 1), project_root@)
                        =~= focused_groups(self.selectors@, corpus.files@, groups@.take(g as int), project_root@));
                }
            }
            g = g + 1;
        }
        proof {
            assert(groups@.take(g as int) =~= groups@);
        }
        kept
    }
}

/// Why `--focus` could not be resolved.
#[derive(Debug, Clone, PartialEq, Eq)]
pub enum FocusError {
    /// A requested path has no project-relative form.
    InvalidPath { path: String, error: ProjectPathError },
    /// A selector matches none of the sources.
    Unmatched { selector: String },
}

/// A requested path resolved against the project root.
pub open spec fn resolved_selector(path: Seq<char>, root: Seq<char>) -> Seq<char> {
    joined_path(root, path)
}

/// Every text of `s` before every later one.
pub open spec fn strictly_sorted(s: Seq<String>) -> bool {
    forall|i: int, j: int|
        0 <= i < j < s.len() ==> bytes_lt(text_bytes((#[trigger] s[i])@), text_bytes((#[trigger] s[j])@))
}

/// `selector` selects the source at `source`, by its project-relative form.
pub open spec fn source_selected(selector: Seq<char>, source: Seq<char>, root: Seq<char>) -> bool {
    match relative_form(source, root) {
        Some(rel) => selects(selector, rel),
        None => false,
    }
}

/// Some source of `sources` is selected by `selector`.
pub open spec fn selects_some(selector: Seq<char>, sources: Seq<String>, root: Seq<char>) -> bool {
    exists|s: int| 0 <= s < sources.len() && source_selected(selector, (#[trigger] sources[s])@, root)
}

/// The selector a requested focus path stands for, when it has one.
pub open spec fn requested_selector(path: Seq<char>, root: Seq<char>) -> Option<Seq<char>> {
    relative_form(resolved_selector(path, root), root)
}

/// A requested path has a selector that selects some source.
pub open spec fn resolves_one(path: Seq<char>, sources: Seq<String>, root: Seq<char>) -> bool {
    match requested_selector(path, root) {
        Some(sel) => selects_some(sel, sources, root),
        None => false,
    }
}

/// Some requested path stands for `selector`.
pub open spec fn was_requested(requested: Seq<String>, selector: Seq<char>, root: Seq<char>) -> bool {
    exists|r: int| 0 <= r < requested.len() && requested_selector((#[trigger] requested[r])@, root) == Some(selector)
}

/// The selector a requested path stands for is among `selectors`.
pub open spec fn kept_selector(selectors: Seq<String>, path: Seq<char>, root: Seq<char>) -> bool {
    exists|i: int| 0 <= i < selectors.len() && requested_selector(path, root) == Some((#[trigger] selectors[i])@)
}

/// Every requested path has a selector, and each selects some source.
pub open spec fn focus_resolves(requested: Seq<String>, sources: Seq<String>, root: Seq<char>) -> bool {
    forall|r: int| 0 <= r < requested.len() ==> resolves_one((#[trigger] requested[r])@, sources, root)
}

proof fn lemma_bytes_lt_from_le(a: Seq<char>, b: Seq<char>)
    requires
        bytes_le(text_bytes(a), text_bytes(b)),
        a != b,
    ensures
        bytes_lt(text_bytes(a), text_bytes(b)),
{
    if text_bytes(a) == text_bytes(b) {
        vstd::utf8::encode_utf8_decode_utf8(a);
        vstd::utf8::encode_utf8_decode_utf8(b);
    }
}

/// Sorts `texts` by their UTF-8 bytes and drops repeats.
fn sorted_distinct(texts: &Vec<String>) -> (out: Vec<String>)
    ensures
        strictly_sorted(out@),
        forall|i: int| 0 <= i < out@.len() ==> exists|t: int| 0 <= t < texts@.len() && (#[trigger] out@[i])@ == texts@[t]@,
        forall|t: int| 0 <= t < texts@.len() ==> exists|i: int| 0 <= i < out@.len() && out@[i]@ == (#[trigger] texts@[t])@,
{
    let order = sort_indices_by_text(texts);
    let mut out: Vec<String> = Vec::new();
    let mut k: usize = 0;
    while k < order.len()
        invariant
            order@.len() == texts@.len(),
            forall|t: int| 0 <= t < order@.len() ==> #[trigger] order@[t] < texts@.len(),
            forall|a: int, b: int|
                0 <= a < b < order@.len() ==> bytes_le(
                    text_bytes(texts@[#[trigger] order@[a] as int]@),
                    text_bytes(texts@[#[trigger] order@[b] as int]@),
                ),
            k <= order@.len(),
            strictly_sorted(out@),
            k == 0 <==> out@.len() == 0,
            k > 0 ==> out@.last()@ == texts@[order@[k - 1] as int]@,
            forall|i: int| 0 <= i < out@.len() ==> exists|t: int| 0 <= t < texts@.len() && (#[trigger] out@[i])@ == texts@[t]@,
            forall|t: int| 0 <= t < k ==> exists|i: int| 0 <= i < out@.len() && out@[i]@ == texts@[#[trigger] order@[t] as int]@,
        decreases order@.len() - k,
    {
        let next = &texts[order[k]];
        let repeat = out.len() > 0 && same_text(out[out.len() - 1].as_str(), next.as_str());
        let ghost before = out@;
        if !repeat {
            proof {
                if k > 0 {
                    let last = before.len() - 1;
                    assert(bytes_le(
                        text_bytes(texts@[order@[k - 1] as int]@),
                        text_bytes(texts@[order@[k as int] as int]@),
                    ));
                    lemma_bytes_lt_from_le(before[last]@, next@);
                    assert forall|i: int| 0 <= i < before.len() implies bytes_lt(
                        text_bytes((#[trigger] before[i])@),
                        text_bytes(next@),
                    ) by {
                        if i < last {
                            crate::order::lemma_bytes_lt_transitive(
                                text_bytes(before[i]@),
                                text_bytes(before[last]@),
                                text_bytes(next@),
                            );
                        }
                    }
                }
            }
            out.push(next.clone());
            proof {
                assert forall|i: int, j: int| 0 <= i < j < out@.len() implies bytes_lt(
                    text_bytes((#[trigger] out@[i])@),
                    text_bytes((#[trigger] out@[j])@),
                ) by {
                    if j < before.len() {
                        assert(out@[i] == before[i] && out@[j] == before[j]);
                    } else {
                        assert(out@[i] == before[i]);
                    }
                }
                assert forall|i: int| 0 <= i < out@.len() implies exists|t: int|
                    0 <= t < texts@.len() && (#[trigger] out@[i])@ == texts@[t]@ by {
                    if i < before.len() {
                        assert(out@[i] == before[i]);
                    } else {
                        assert(out@[i]@ == texts@[order@[k as int] as int]@);
                    }
                }
                assert forall|t: int| 0 <= t < k + 1 implies exists|i: int|
                    0 <= i < out@.len() && out@[i]@ == texts@[#[trigger] order@[t] as int]@ by {
                    if t < k {
                        let i = choose|i: int| 0 <= i < before.len() && before[i]@ == texts@[order@[t] as int]@;
                        assert(out@[i] == before[i]);
                    } else {
                        assert(out@[out@.len() - 1]@ == texts@[order@[t] as int]@);
                    }
                }
            }
        } else {
            proof {
                assert forall|t: int| 0 <= t < k + 1 implies exists|i: int|
                    0 <= i < out@.len() && out@[i]@ == texts@[#[trigger] order@[t] as int]@ by {
                    if t == k {
                        assert(out@[out@.len() - 1]@ == texts@[order@[t] as int]@);
                    }
                }
            }
        }
        k = k + 1;
    }
    proof {
        assert forall|t: int| 0 <= t < texts@.len() implies exists|i: int|
            0 <= i < out@.len() && out@[i]@ == (#[trigger] texts@[t])@ by {
            let p = t as usize;
            assert(order@.contains(p));
            let q = choose|q: int| 0 <= q < order@.len() && order@[q] == p;
            assert(exists|i: int| 0 <= i < out@.len() && out@[i]@ == texts@[order@[q] as int]@);
        }
    }
    out
}

/// True when some source's project-relative form is selected by
/// `selector`.
fn selects_some_source(selector: &str, sources: &Vec<String>, project_root: &str) -> (found: bool)
    ensures
        found == selects_some(selector@, sources@, project_root@),
{
    let mut t: usize = 0;
    while t < sources.len()
        invariant
            t <= sources@.len(),
            forall|j: int| 0 <= j < t ==> !source_selected(selector@, (#[trigger] sources@[j])@, project_root@),
        decreases sources@.len() - t,
    {
        if let Ok(relative) = project_relative_path(sources[t].as_str(), project_root) {
            if selector_matches_source(selector, relative.as_str()) {
                proof {
                    assert(source_selected(selector@, sources@[t as int]@, project_root@));
                }
                return true;
            }
        }
        t = t + 1;
    }
    false
}

/// The selector of each requested path, or the first path without one.
fn normalize_selectors(requested: &Vec<String>, project_root: &str) -> (result: Result<Vec<String>, FocusError>)
    ensures
        result matches Ok(normalized) ==> normalized@.len() == requested@.len() && forall|j: int|
            0 <= j < requested@.len() ==> requested_selector(requested@[j]@, project_root@) == Some(
                (#[trigger] normalized@[j])@,
            ),
        result matches Err(e) ==> e matches FocusError::InvalidPath { path, .. } && exists|r: int|
            0 <= r < requested@.len() && (#[trigger] requested@[r])@ == path@ && requested_selector(
                requested@[r]@,
                project_root@,
            ) is None,
{
    let mut normalized: Vec<String> = Vec::new();
    let mut r: usize = 0;
    while r < requested.len()
        invariant
            r <= requested@.len(),
            normalized@.len() == r,
            forall|j: int|
                0 <= j < r ==> requested_selector(requested@[j]@, project_root@) == Some((#[trigger] normalized@[j])@),
        decreases requested@.len() - r,
    {
        let resolved = join_path(project_root, requested[r].as_str());
        match project_relative_path(resolved.as_str(), project_root) {
            Ok(relative) => {
                normalized.push(relative);
            },
            Err(error) => {
                proof {
                    assert(requested_selector(requested@[r as int]@, project_root@) is None);
                }
                return Err(FocusError::InvalidPath { path: requested[r].clone(), error });
            },
        }
        r = r + 1;
    }
    Ok(normalized)
}

/// The first selector that selects no source.
fn first_unmatched(selectors: &Vec<String>, sources: &Vec<String>, project_root: &str) -> (found: Option<usize>)
    ensures
        match found {
            Some(k) => k < selectors@.len() && !selects_some(selectors@[k as int]@, sources@, project_root@),
            None => forall|j: int|
                0 <= j < selectors@.len() ==> selects_some((#[trigger] selectors@[j])@, sources@, project_root@),
        },
{
    let mut s: usize = 0;
    while s < selectors.len()
        invariant
            s <= selectors@.len(),
            forall|j: int| 0 <= j < s ==> selects_some((#[trigger] selectors@[j])@, sources@, project_root@),
        decreases selectors@.len() - s,
    {
        if !selects_some_source(selectors[s].as_str(), sources, project_root) {
            return Some(s);
        }
        s = s + 1;
    }
    None
}

/// Turns the requested focus paths into sorted, distinct project-relative
/// selectors: a relative path is taken under the project root. The focus
/// resolves when every requested path has a selector that selects one of
/// `sources`; otherwise the first path without a selector, or else the
/// first unmatched selector in sorted order, is reported.
pub fn resolve_focus(requested: &Vec<String>, sources: &Vec<String>, project_root: &str) -> (result: Result<
    FocusSet,
    FocusError,
>)
    ensures
        result is Ok <==> focus_resolves(requested@, sources@, project_root@),
        result matches Ok(f) ==> {
            &&& strictly_sorted(f.selectors@)
            &&& forall|i: int|
                0 <= i < f.selectors@.len() ==> was_requested(requested@, (#[trigger] f.selectors@[i])@, project_root@)
            &&& forall|r: int|
                0 <= r < requested@.len() ==> kept_selector(f.selectors@, (#[trigger] requested@[r])@, project_root@)
        },
        result matches Err(FocusError::InvalidPath { path, .. }) ==> exists|r: int|
            0 <= r < requested@.len() && (#[trigger] requested@[r])@ == path@ && requested_selector(
                requested@[r]@,
                project_root@,
            ) is None,
        result matches Err(FocusError::Unmatched { selector }) ==> !selects_some(selector@, sources@, project_root@)
            && exists|r: int|
            0 <= r < requested@.len() && requested_selector((#[trigger] requested@[r])@, project_root@) == Some(
                selector@,
            ),
{
    let normalized = match normalize_selectors(requested, project_root) {
        Ok(normalized) => normalized,
        Err(error) => {
            proof {
                let r = choose|r: int|
                    0 <= r < requested@.len() && requested_selector(requested@[r]@, project_root@) is None;
                assert(!resolves_one(requested@[r]@, sources@, project_root@));
            }
            return Err(error);
        },
    };
    let selectors = sorted_distinct(&normalized);
    if let Some(s) = first_unmatched(&selectors, sources, project_root) {
        proof {
            let t = choose|t: int| 0 <= t < normalized@.len() && selectors@[s as int]@ == normalized@[t]@;
            assert(requested_selector(requested@[t]@, project_root@) == Some(selectors@[s as int]@));
            assert(!resolves_one(requested@[t]@, sources@, project_root@));
        }
        return Err(FocusError::Unmatched { selector: selectors[s].clone() });
    }
    proof {
        assert forall|j: int| 0 <= j < requested@.len() implies resolves_one(
            (#[trigger] requested@[j])@,
            sources@,
            project_root@,
        ) by {
            assert(requested_selector(requested@[j]@, project_root@) == Some(normalized@[j]@));
            let i = choose|i: int| 0 <= i < selectors@.len() && selectors@[i]@ == normalized@[j]@;
            assert(selects_some(selectors@[i]@, sources@, project_root@));
        }
    }
    let focus = FocusSet { selectors };
    proof {
        assert forall|i: int| 0 <= i < focus.selectors@.len() implies was_requested(
            requested@,
            (#[trigger] focus.selectors@[i])@,
            project_root@,
        ) by {
            let t = choose|t: int| 0 <= t < normalized@.len() && focus.selectors@[i]@ == normalized@[t]@;
            assert(requested_selector(requested@[t]@, project_root@) == Some(normalized@[t]@));
        }
        assert forall|j: int| 0 <= j < requested@.len() implies kept_selector(
            focus.selectors@,
            (#[trigger] requested@[j])@,
            project_root@,
        ) by {
            assert(requested_selector(requested@[j]@, project_root@) == Some(normalized@[j]@));
            let i = choose|i: int| 0 <= i < focus.selectors@.len() && focus.selectors@[i]@ == normalized@[j]@;
            assert(focus.selectors@[i]@ == normalized@[j]@);
        }
    }
    Ok(focus)
}

} // verus!
