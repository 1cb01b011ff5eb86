use vstd::prelude::*;
use vstd::string::{StrSliceExecFns, StringExecFns};

verus! {

/// Why a path has no canonical project-relative form.
#[derive(Debug, Clone, PartialEq, Eq)]
pub enum ProjectPathError {
    OutsideRoot { path: String, root: String },
    InvalidPath(String),
    InvalidSerialized(String),
}

/// The pieces of `p` between `/` separators, as `str::split('/')` gives
/// them.
pub open spec fn split_slash(p: Seq<char>) -> Seq<Seq<char>>
    decreases p.len(),
{
    if p.len() == 0 {
        seq![Seq::<char>::empty()]
    } else {
        let rest = split_slash(p.drop_last());
        if p.last() == '/' {
            rest.push(Seq::<char>::empty())
        } else {
            rest.update(rest.len() - 1, rest.last().push(p.last()))
        }
    }
}

/// The pieces that name components: non-empty and not `.`, except a
/// leading `.` of a relative path, which names the current directory.
pub open spec fn kept_pieces(pieces: Seq<Seq<char>>, keep_leading_dot: bool) -> Seq<Seq<char>>
    decreases pieces.len(),
{
    if pieces.len() == 0 {
        seq![]
    } else {
        let piece = pieces.last();
        let keep = piece.len() > 0 && (piece != seq!['.'] || (pieces.len() == 1 && keep_leading_dot));
        kept_pieces(pieces.drop_last(), keep_leading_dot) + if keep {
            seq![piece]
        } else {
            seq![]
        }
    }
}

/// Whether `p` is absolute.
pub open spec fn is_absolute(p: Seq<char>) -> bool {
    p.len() > 0 && p[0] == '/'
}

/// The components of a `/`-separated path, as `Path::components` gives
/// them: `/` for the root, `.` for a leading current directory, then the
/// named components.
pub open spec fn path_components(p: Seq<char>) -> Seq<Seq<char>> {
    if is_absolute(p) {
        seq![seq!['/']] + kept_pieces(split_slash(p), false)
    } else {
        kept_pieces(split_slash(p), true)
    }
}

/// A component that names a directory entry.
pub open spec fn normal_component(c: Seq<char>) -> bool {
    c != seq!['/'] && c != seq!['.'] && c != seq!['.', '.']
}

/// `pieces` joined with `/`.
pub open spec fn join_slash(pieces: Seq<Seq<char>>) -> Seq<char>
    decreases pieces.len(),
{
    if pieces.len() == 0 {
        seq![]
    } else if pieces.len() == 1 {
        pieces[0]
    } else {
        join_slash(pieces.drop_last()) + seq!['/'] + pieces.last()
    }
}

/// The canonical serialized form of a project-relative path, as baselines
/// and reports store it: non-empty, `/`-separated, no leading or trailing
/// `/`, no `\` or NUL, no drive prefix, and no empty, `.` or `..` piece.
pub open spec fn valid_serialized(p: Seq<char>) -> bool {
    &&& p.len() > 0
    &&& p[0] != '/'
    &&& p.last() != '/'
    &&& !p.contains('\\')
    &&& !p.contains('\0')
    &&& !(p.len() >= 2 && p[1] == ':' && (('a' <= p[0] && p[0] <= 'z') || ('A' <= p[0] && p[0] <= 'Z')))
    &&& forall|k: int|
        0 <= k < split_slash(p).len() ==> {
            let piece = #[trigger] split_slash(p)[k];
            piece.len() > 0 && piece != seq!['.'] && piece != seq!['.', '.']
        }
}

/// The pieces of `path` between `/` separators.
pub fn split_pieces(path: &str) -> (pieces: Vec<String>)
    ensures
        pieces@.len() == split_slash(path@).len(),
        forall|k: int| 0 <= k < pieces@.len() ==> #[trigger] pieces@[k]@ == split_slash(path@)[k],
{
    let n = path.unicode_len();
    let mut pieces: Vec<String> = Vec::new();
    let mut start: usize = 0;
    let mut i: usize = 0;
    proof {
        assert(path@.take(0) =~= Seq::<char>::empty());
    }
    while i < n
        invariant
            n == path@.len(),
            start <= i <= n,
            pieces@.len() + 1 == split_slash(path@.take(i as int)).len(),
            forall|k: int| 0 <= k < pieces@.len() ==> #[trigger] pieces@[k]@ == split_slash(path@.take(i as int))[k],
            split_slash(path@.take(i as int)).last() == path@.subrange(start as int, i as int),
        decreases n - i,
    {
        let c = path.get_char(i);
        let ghost before = path@.take(i as int);
        proof {
            assert(path@.take(i + 1).drop_last() =~= before);
            assert(path@.take(i + 1).last() == c);
        }
        if c == '/' {
            let piece = path.substring_char(start, i).to_owned();
            pieces.push(piece);
            start = i + 1;
            proof {
                assert(path@.subrange(start as int, i + 1) =~= Seq::<char>::empty());
            }
        } else {
            proof {
                assert(path@.subrange(start as int, i + 1) =~= path@.subrange(start as int, i as int).push(c));
            }
        }
        i = i + 1;
    }
    let last = path.substring_char(start, n).to_owned();
    pieces.push(last);
    proof {
        assert(path@.take(n as int) =~= path@);
    }
    pieces
}

/// True when `piece` is exactly `.`.
pub fn is_dot(piece: &str) -> (dot: bool)
    ensures
        dot == (piece@ == seq!['.']),
{
    if piece.unicode_len() == 1 {
        let c = piece.get_char(0);
        proof {
            if c == '.' {
                assert(piece@ =~= seq!['.']);
            }
        }
        c == '.'
    } else {
        false
    }
}

/// True when `piece` is exactly `..`.
pub fn is_dot_dot(piece: &str) -> (dots: bool)
    ensures
        dots == (piece@ == seq!['.', '.']),
{
    if piece.unicode_len() == 2 {
        let a = piece.get_char(0);
        let b = piece.get_char(1);
        proof {
            if a == '.' && b == '.' {
                assert(piece@ =~= seq!['.', '.']);
            }
        }
        a == '.' && b == '.'
    } else {
        false
    }
}

/// True when `piece` is exactly `/`.
pub fn is_root_marker(piece: &str) -> (root: bool)
    ensures
        root == (piece@ == seq!['/']),
{
    if piece.unicode_len() == 1 {
        let c = piece.get_char(0);
        proof {
            if c == '/' {
                assert(piece@ =~= seq!['/']);
            }
        }
        c == '/'
    } else {
        false
    }
}

/// The components of `path`, as `Path::components` gives them.
pub fn components(path: &str) -> (result: Vec<String>)
    ensures
        result@.len() == path_components(path@).len(),
        forall|k: int| 0 <= k < result@.len() ==> #[trigger] result@[k]@ == path_components(path@)[k],
{
    let pieces = split_pieces(path);
    let n = path.unicode_len();
    let absolute = n > 0 && path.get_char(0) == '/';
    let mut result: Vec<String> = Vec::new();
    if absolute {
        result.push(String::from_str("/"));
        proof {
            reveal_strlit("/");
        }
    }
    let ghost head: Seq<Seq<char>> = if absolute {
        seq![seq!['/']]
    } else {
        seq![]
    };
    let ghost all = split_slash(path@);
    let mut k: usize = 0;
    while k < pieces.len()
        invariant
            pieces@.len() == all.len(),
            forall|t: int| 0 <= t < pieces@.len() ==> #[trigger] pieces@[t]@ == all[t],
            k <= pieces@.len(),
            result@.len() == head.len() + kept_pieces(all.take(k as int), !absolute).len(),
            forall|t: int|
                0 <= t < result@.len() ==> #[trigger] result@[t]@ == (head + kept_pieces(
                    all.take(k as int),
                    !absolute,
                ))[t],
        decreases pieces@.len() - k,
    {
        let piece = &pieces[k];
        let keep = piece.unicode_len() > 0 && (!is_dot(piece.as_str()) || (k == 0 && !absolute));
        proof {
            assert(all.take(k + 1).drop_last() =~= all.take(k as int));
            assert(all.take(k + 1).last() == all[k as int]);
        }
        if keep {
            let ghost before = result@;
            result.push(piece.clone());
            proof {
                assert forall|t: int| 0 <= t < result@.len() implies #[trigger] result@[t]@ == (head
                    + kept_pieces(all.take(k + 1), !absolute))[t] by {
                    if t < before.len() {
                        assert(result@[t] == before[t]);
                    }
                }
            }
        } else {
            proof {
                assert(kept_pieces(all.take(k + 1), !absolute) =~= kept_pieces(all.take(k as int), !absolute));
            }
        }
        k = k + 1;
    }
    proof {
        assert(all.take(k as int) =~= all);
        assert(path_components(path@) =~= head + kept_pieces(all, !absolute));
    }
    result
}


/// What `project_relative_path` gives for `path` under `root`.
pub open spec fn relative_result(path: Seq<char>, root: Seq<char>) -> Option<Seq<Seq<char>>> {
    let pc = path_components(path);
    let rc = path_components(root);
    if rc.len() <= pc.len() && pc.take(rc.len() as int) == rc {
        Some(pc.skip(rc.len() as int))
    } else {
        None
    }
}

/// Checks the canonical serialized form of a project-relative path.
pub fn validate_project_relative_path(path: &str) -> (result: Result<(), ProjectPathError>)
    ensures
        result is Ok <==> valid_serialized(path@),
        result matches Err(e) ==> e == ProjectPathError::InvalidSerialized(e->InvalidSerialized_0)
            && e->InvalidSerialized_0@ == path@,
{
    if valid_serialized_path(path) {
        Ok(())
    } else {
        Err(ProjectPathError::InvalidSerialized(path.to_owned()))
    }
}

/// True when `path` is in canonical serialized form.
pub fn valid_serialized_path(path: &str) -> (valid: bool)
    ensures
        valid == valid_serialized(path@),
{
    let n = path.unicode_len();
    if n == 0 {
        return false;
    }
    if path.get_char(0) == '/' || path.get_char(n - 1) == '/' {
        return false;
    }
    let mut i: usize = 0;
    while i < n
        invariant
            n == path@.len(),
            i <= n,
            forall|t: int| 0 <= t < i ==> #[trigger] path@[t] != '\\' && path@[t] != '\0',
        decreases n - i,
    {
        let c = path.get_char(i);
        if c == '\\' || c == '\0' {
            proof {
                assert(path@.contains(c));
            }
            return false;
        }
        i = i + 1;
    }
    if n >= 2 && path.get_char(1) == ':' {
        let first = path.get_char(0);
        if ('a' <= first && first <= 'z') || ('A' <= first && first <= 'Z') {
            return false;
        }
    }
    let pieces = split_pieces(path);
    let mut k: usize = 0;
    while k < pieces.len()
        invariant
            k <= pieces@.len(),
            pieces@.len() == split_slash(path@).len(),
            forall|t: int| 0 <= t < pieces@.len() ==> #[trigger] pieces@[t]@ == split_slash(path@)[t],
            forall|t: int|
                0 <= t < k ==> {
                    let piece = #[trigger] split_slash(path@)[t];
                    piece.len() > 0 && piece != seq!['.'] && piece != seq!['.', '.']
                },
        decreases pieces@.len() - k,
    {
        let piece = pieces[k].as_str();
        proof {
            assert(pieces@[k as int]@ == split_slash(path@)[k as int]);
        }
        if piece.unicode_len() == 0 || is_dot(piece) || is_dot_dot(piece) {
            return false;
        }
        k = k + 1;
    }
    true
}

/// The components of `path` after those of `project_root`, joined with
/// `/`; `OutsideRoot` when the root's components do not begin `path`'s,
/// `InvalidPath` when one left is not a named entry.
pub fn relative_join(path: &str, project_root: &str) -> (result: Result<String, ProjectPathError>)
    ensures
        result matches Err(ProjectPathError::OutsideRoot { path: p, root: r }) ==> relative_result(
            path@,
            project_root@,
        ) is None && p@ == path@ && r@ == project_root@,
        relative_result(path@, project_root@) is None ==> result is Err && result->Err_0 is OutsideRoot,
        relative_result(path@, project_root@) matches Some(rel) ==> {
            if exists|k: int| 0 <= k < rel.len() && !normal_component(#[trigger] rel[k]) {
                result matches Err(ProjectPathError::InvalidPath(p)) && p@ == path@
            } else {
                result matches Ok(s) && s@ == join_slash(rel)
            }
        },
{
    let path_parts = components(path);
    let root_parts = components(project_root);
    let ghost pc = path_components(path@);
    let ghost rc = path_components(project_root@);
    if root_parts.len() > path_parts.len() {
        return Err(ProjectPathError::OutsideRoot { path: path.to_owned(), root: project_root.to_owned() });
    }
    let mut k: usize = 0;
    while k < root_parts.len()
        invariant
            pc == path_components(path@),
            rc == path_components(project_root@),
            root_parts@.len() <= path_parts@.len(),
            root_parts@.len() == rc.len(),
            path_parts@.len() == pc.len(),
            forall|t: int| 0 <= t < path_parts@.len() ==> #[trigger] path_parts@[t]@ == pc[t],
            forall|t: int| 0 <= t < root_parts@.len() ==> #[trigger] root_parts@[t]@ == rc[t],
            k <= root_parts@.len(),
            forall|t: int| 0 <= t < k ==> pc[t] == rc[t],
        decreases root_parts@.len() - k,
    {
        if path_parts[k] != root_parts[k] {
            proof {
                assert(path_parts@[k as int]@ != root_parts@[k as int]@);
                assert(pc.take(rc.len() as int)[k as int] != rc[k as int]);
                assert(pc.take(rc.len() as int) != rc);
            }
            return Err(ProjectPathError::OutsideRoot { path: path.to_owned(), root: project_root.to_owned() });
        }
        k = k + 1;
    }
    proof {
        assert(pc.take(rc.len() as int) =~= rc);
    }
    let ghost rel = pc.skip(rc.len() as int);
    let start = root_parts.len();
    let mut serialized = String::new();
    let mut i: usize = start;
    while i < path_parts.len()
        invariant
            start == rc.len(),
            pc == path_components(path@),
            rc == path_components(project_root@),
            rc.len() <= pc.len(),
            pc.take(rc.len() as int) == rc,
            start <= i <= path_parts@.len(),
            path_parts@.len() == pc.len(),
            rel == pc.skip(rc.len() as int),
            forall|t: int| 0 <= t < path_parts@.len() ==> #[trigger] path_parts@[t]@ == pc[t],
            forall|t: int| 0 <= t < i - start ==> normal_component(#[trigger] rel[t]),
            serialized@ == join_slash(rel.take(i - start)),
        decreases path_parts@.len() - i,
    {
        let part = path_parts[i].as_str();
        proof {
            assert(rel[i - start] == pc[i as int]);
        }
        if is_root_marker(part) || is_dot(part) || is_dot_dot(part) {
            proof {
                assert(!normal_component(rel[i - start]));
            }
            return Err(ProjectPathError::InvalidPath(path.to_owned()));
        }
        proof {
            let before = rel.take(i - start);
            let after = rel.take(i - start + 1);
            assert(after.drop_last() =~= before);
            assert(after.last() == pc[i as int]);
        }
        if i > start {
            serialized.append("/");
            proof {
                reveal_strlit("/");
            }
        }
        serialized.append(part);
        i = i + 1;
    }
    proof {
        assert(rel.take(i - start) =~= rel);
    }
    Ok(serialized)
}

/// Converts a path inside `project_root` to its canonical project-relative
/// form: the components after the root's, joined with `/`.
pub fn project_relative_path(path: &str, project_root: &str) -> (result: Result<String, ProjectPathError>)
    ensures
        result matches Err(ProjectPathError::OutsideRoot { path: p, root: r }) ==> relative_result(
            path@,
            project_root@,
        ) is None && p@ == path@ && r@ == project_root@,
        relative_result(path@, project_root@) is None ==> result is Err && result->Err_0 is OutsideRoot,
        relative_result(path@, project_root@) matches Some(rel) ==> {
            if exists|k: int| 0 <= k < rel.len() && !normal_component(#[trigger] rel[k]) {
                result matches Err(ProjectPathError::InvalidPath(p)) && p@ == path@
            } else if !valid_serialized(join_slash(rel)) {
                result matches Err(ProjectPathError::InvalidSerialized(s)) && s@ == join_slash(rel)
            } else {
                result matches Ok(s) && s@ == join_slash(rel)
            }
        },
{
    let serialized = match relative_join(path, project_root) {
        Ok(serialized) => serialized,
        Err(error) => {
            return Err(error);
        },
    };
    if !valid_serialized_path(serialized.as_str()) {
        return Err(ProjectPathError::InvalidSerialized(serialized));
    }
    Ok(serialized)
}

/// True when `source` is `selector` or lies under it as a directory.
pub fn selector_matches_source(selector: &str, source: &str) -> (matches: bool)
    ensures
        matches == (source@ == selector@ || (selector@.len() < source@.len() && source@.take(
            selector@.len() as int,
        ) == selector@ && source@[selector@.len() as int] == '/')),
{
    let n = selector.unicode_len();
    let m = source.unicode_len();
    if n > m {
        proof {
            if source@ == selector@ {
                assert(false);
            }
        }
        return false;
    }
    let mut i: usize = 0;
    while i < n
        invariant
            n == selector@.len(),
            m == source@.len(),
            n <= m,
            i <= n,
            forall|t: int| 0 <= t < i ==> source@[t] == selector@[t],
        decreases n - i,
    {
        if source.get_char(i) != selector.get_char(i) {
            proof {
                assert(source@.take(n as int)[i as int] != selector@[i as int]);
                assert(source@[i as int] != selector@[i as int]);
            }
            return false;
        }
        i = i + 1;
    }
    proof {
        assert(source@.take(n as int) =~= selector@);
    }
    if n == m {
        proof {
            assert(source@ =~= selector@);
        }
        return true;
    }
    source.get_char(n) == '/'
}

} // verus!
