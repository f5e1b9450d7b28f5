//! Paths of project assets. An asset path starts with the project-root rune `$/` and
//! names a file relative to the root of the project.
use vstd::prelude::*;

verus! {

/// Whether `p` starts with the project-root rune.
pub open spec fn has_rune(p: Seq<char>) -> bool {
    p.len() >= 2 && p[0] == '$' && p[1] == '/'
}

/// The position of the first character at or after `i` that is not a separator.
pub open spec fn skip_separators(p: Seq<char>, i: int) -> int
    decreases p.len() - i,
{
    if 0 <= i < p.len() && p[i] == '/' {
        skip_separators(p, i + 1)
    } else {
        i
    }
}

/// What follows the rune of `p` and the separators after it.
pub open spec fn after_rune(p: Seq<char>) -> Seq<char> {
    p.subrange(skip_separators(p, 2), p.len() as int)
}

/// `rel` put under `root`, with one separator between them where `root` does not end in
/// one; an absolute `rel` stands alone.
pub open spec fn joined(root: Seq<char>, rel: Seq<char>) -> Seq<char> {
    if rel.len() > 0 && rel[0] == '/' {
        rel
    } else if root.len() == 0 || root.last() == '/' {
        root + rel
    } else {
        root + seq!['/'] + rel
    }
}

/// The asset path `path` without its project-root rune.
pub fn strip_rune(path: &str) -> (r: &str)
    requires
        has_rune(path@),
    ensures
        r@ == after_rune(path@),
{
    let n = path.unicode_len();
    let mut i: usize = 2;
    while i < n && path.get_char(i) == '/'
        invariant
            2 <= i <= n,
            n == path@.len(),
            has_rune(path@),
            skip_separators(path@, i as int) == skip_separators(path@, 2),
        decreases n - i,
    {
        i = i + 1;
    }
    path.substring_char(i, n)
}

/// The file-system path of the asset `path` in the project whose root is `project_root`.
/// For instance `$/ferris/ferris.fbx` becomes `/project/ferris/ferris.fbx` where the root
/// is `/project`.
pub fn as_fs_abs(project_root: &str, path: &str) -> (r: String)
    requires
        has_rune(path@),
    ensures
        r@ == joined(project_root@, after_rune(path@)),
{
    let rel = strip_rune(path);
    let mut out = String::from_str(project_root);
    let n = project_root.unicode_len();
    let starts_with_separator = rel.unicode_len() > 0 && rel.get_char(0) == '/';
    if starts_with_separator {
        return rel.to_owned();
    }
    if n > 0 && project_root.get_char(n - 1) != '/' {
        proof {
            reveal_strlit("/");
        }
        out.append("/");
    }
    out.append(rel);
    out
}

} // verus!
