//! The parts of a file path, as `std::path::Path` finds them.  How a path
//! splits depends on the platform's separators and prefixes; what is
//! claimed here is only what holds on every platform: for plain paths, and
//! for paths that end in a `.pdf` file name (`pdf_tail_path`).
use vstd::prelude::*;

verus! {

/// A path text that every platform splits the same way: not empty, no `\`
/// and no `:` (so no Windows prefix), at most one `/` in front, and
/// otherwise names joined by single `/`, none of them `.`, with no `/` at
/// the end.  Its components are then exactly its names (after the root
/// for a leading `/`), on Unix and on Windows alike.
pub open spec fn plain_path(s: Seq<char>) -> bool {
    let body = path_body(s);
    &&& body.len() > 0
    &&& forall|i: int| 0 <= i < s.len() ==> s[i] != '\\' && s[i] != ':'
    &&& body[0] != '/'
    &&& body[body.len() - 1] != '/'
    &&& forall|i: int| 0 <= i < body.len() - 1 ==> !(body[i] == '/' && #[trigger] body[i + 1] == '/')
    &&& forall|i: int|
        0 <= i < body.len() && #[trigger] body[i] == '.' ==> (0 < i && body[i - 1] != '/') || (i + 1
            < body.len() && body[i + 1] != '/')
}

/// A separator on some platform: `/` everywhere, `\` on Windows.
pub open spec fn is_sep_char(c: char) -> bool {
    c == '/' || c == '\\'
}

/// The text after the last `/` or `\`: the final name on every platform,
/// when the path ends in one.
pub open spec fn sep_tail(s: Seq<char>) -> Seq<char>
    decreases s.len(),
{
    if s.len() == 0 {
        s
    } else if is_sep_char(s.last()) {
        Seq::empty()
    } else {
        sep_tail(s.drop_last()).push(s.last())
    }
}

/// `b` ends `a`.
pub open spec fn ends_with(a: Seq<char>, b: Seq<char>) -> bool {
    b.len() <= a.len() && a.subrange(a.len() - b.len(), a.len() as int) == b
}

/// `.pdf`
pub open spec fn pdf_suffix() -> Seq<char> {
    seq!['.', 'p', 'd', 'f']
}

/// `pdf`
pub open spec fn pdf_ext() -> Seq<char> {
    seq!['p', 'd', 'f']
}

/// A path that ends in a `.pdf` file name that every platform reads the
/// same way: its final name (after the last `/` or `\`) has something
/// before `.pdf` and no `:` (so no drive prefix takes part of it), and the
/// path does not start with two separators (so no Windows network or
/// verbatim prefix swallows that name).  Windows paths such as
/// `C:\docs\a.pdf` are of this kind.
pub open spec fn pdf_tail_path(s: Seq<char>) -> bool {
    let t = sep_tail(s);
    &&& t.len() >= 5
    &&& t.subrange(t.len() - 4, t.len() as int) == pdf_suffix()
    &&& forall|i: int| 0 <= i < t.len() ==> t[i] != ':'
    &&& !(s.len() >= 2 && is_sep_char(s[0]) && is_sep_char(s[1]))
}

/// The final name of such a path without its `.pdf`.
pub open spec fn pdf_stem_tail(s: Seq<char>) -> Seq<char> {
    sep_tail(s).take(sep_tail(s).len() - 4)
}

/// Text without separators goes whole into the final name.
pub proof fn lemma_sep_tail_append(s: Seq<char>, t: Seq<char>)
    requires
        forall|i: int| 0 <= i < t.len() ==> !is_sep_char(t[i]),
    ensures
        sep_tail(s + t) == sep_tail(s) + t,
    decreases t.len(),
{
    if t.len() == 0 {
        assert(s + t =~= s);
        assert(sep_tail(s) + t =~= sep_tail(s));
    } else {
        let u = t.drop_last();
        lemma_sep_tail_append(s, u);
        assert((s + t).drop_last() =~= s + u);
        assert((s + t).last() == t.last());
        assert(sep_tail(s) + t =~= (sep_tail(s) + u).push(t.last()));
    }
}

/// A path without its leading `/`, if any.
pub open spec fn path_body(s: Seq<char>) -> Seq<char> {
    if s.len() > 0 && s[0] == '/' {
        s.drop_first()
    } else {
        s
    }
}

/// The position of the last `c` in `s`.
pub open spec fn last_index(s: Seq<char>, c: char) -> Option<int>
    decreases s.len(),
{
    if s.len() == 0 {
        None
    } else if s.last() == c {
        Some(s.len() - 1)
    } else {
        last_index(s.drop_last(), c)
    }
}

/// The parent of a plain path: the text before its last `/` (the root `/`
/// when that is the leading one), or the empty path when it has none.
pub open spec fn plain_parent(s: Seq<char>) -> Seq<char> {
    match last_index(s, '/') {
        None => Seq::empty(),
        Some(k) => if k == 0 {
            seq!['/']
        } else {
            s.take(k)
        },
    }
}

/// The last name of a path: the text after its last `/`.
pub open spec fn last_name(s: Seq<char>) -> Seq<char> {
    match last_index(s, '/') {
        None => s,
        Some(k) => s.skip(k + 1),
    }
}

/// A plain path whose last name names a file (it is not `..`).
pub open spec fn plain_file(s: Seq<char>) -> bool {
    plain_path(s) && last_name(s) != ".."@
}

/// The stem of a file name: the part before its last `.`, or the whole
/// name when it has no `.` but a leading one.
pub open spec fn name_stem(n: Seq<char>) -> Seq<char> {
    match last_index(n, '.') {
        Some(p) => if p > 0 {
            n.take(p)
        } else {
            n
        },
        None => n,
    }
}

/// The extension of a file name: the part after its last `.`, none when it
/// has no `.` but a leading one.
pub open spec fn name_extension(n: Seq<char>) -> Option<Seq<char>> {
    match last_index(n, '.') {
        Some(p) => if p > 0 {
            Some(n.skip(p + 1))
        } else {
            None
        },
        None => None,
    }
}

/// A single name that `join` appends as it is: not empty, without `/`,
/// `\` or `:`.
pub open spec fn single_name(n: Seq<char>) -> bool {
    &&& n.len() > 0
    &&& forall|i: int| 0 <= i < n.len() ==> n[i] != '/' && n[i] != '\\' && n[i] != ':'
}

/// A directory text that `join` extends without replacing it: no `\`, no
/// `:` and no leading `//`, so that no platform reads a prefix in it.
pub open spec fn join_base(b: Seq<char>) -> bool {
    &&& forall|i: int| 0 <= i < b.len() ==> b[i] != '\\' && b[i] != ':'
    &&& !(b.len() >= 2 && b[0] == '/' && b[1] == '/')
}

/// `name` under the directory `base` with the separator `sep`: the name
/// alone under an empty directory, right after a directory ending in `/`,
/// else after the directory and `sep`.
pub open spec fn joined(base: Seq<char>, name: Seq<char>, sep: char) -> Seq<char> {
    if base.len() == 0 {
        name
    } else if base.last() == '/' {
        base + name
    } else {
        base + seq![sep] + name
    }
}

/// `r` is `name` joined under `base` with `/` or with `\`, the separator
/// of the platform.
pub open spec fn joined_either(r: Seq<char>, base: Seq<char>, name: Seq<char>) -> bool {
    r == joined(base, name, '/') || r == joined(base, name, '\\')
}

/// Where `last_index` points.
pub proof fn lemma_last_index(s: Seq<char>, c: char)
    ensures
        match last_index(s, c) {
            None => forall|j: int| 0 <= j < s.len() ==> s[j] != c,
            Some(k) => {
                &&& 0 <= k < s.len()
                &&& s[k] == c
                &&& forall|j: int| k < j < s.len() ==> s[j] != c
            },
        },
    decreases s.len(),
{
    if s.len() > 0 && s.last() != c {
        lemma_last_index(s.drop_last(), c);
        assert forall|j: int| 0 <= j < s.len() - 1 implies s[j] == s.drop_last()[j] by {}
    }
}

/// A plain file path is its parent joined with its last name by `/`; the
/// parent is a base `join` extends and the last name a single name.
pub proof fn lemma_plain_file_parts(s: Seq<char>)
    requires
        plain_file(s),
    ensures
        join_base(plain_parent(s)),
        single_name(last_name(s)),
        s == joined(plain_parent(s), last_name(s), '/'),
{
    lemma_last_index(s, '/');
    let body = path_body(s);
    let off: int = if s.len() > 0 && s[0] == '/' { 1 } else { 0 };
    assert forall|j: int| 0 <= j < body.len() implies body[j] == s[j + off] by {}
    assert(s[s.len() - 1] != '/') by {
        assert(body[body.len() - 1] == s[body.len() - 1 + off]);
    }
    let n = last_name(s);
    match last_index(s, '/') {
        None => {},
        Some(k) => {
            assert(k < s.len() - 1);
            assert forall|i: int| 0 <= i < n.len() implies n[i] != '/' && n[i] != '\\' && n[i] != ':' by {
                assert(n[i] == s[k + 1 + i]);
            }
            if k == 0 {
                assert(s =~= seq!['/'] + n);
            } else {
                let p = s.take(k);
                if off == 1 {
                    if k == 1 {
                        assert(body[0] == s[1]);
                        assert(false);
                    } else {
                        let i: int = k - 2;
                        assert(body[i] == s[k - 1]);
                        assert(body[i + 1] == s[k]);
                        assert(!(body[i] == '/' && body[i + 1] == '/'));
                    }
                } else {
                    let i: int = k - 1;
                    assert(body == s);
                    assert(body[i + 1] == s[k]);
                    assert(!(body[i] == '/' && body[i + 1] == '/'));
                }
                assert(s[k - 1] != '/');
                assert(p.last() == s[k - 1]);
                assert(s =~= p + seq!['/'] + n);
                if p.len() >= 2 && p[0] == '/' && p[1] == '/' {
                    assert(body[0] == s[1]);
                }
            }
        },
    }
}

/// `Path::file_name`, as text (lossily converted).  Claimed only for a
/// plain file path: its final component is its last name.
#[verifier::external_body]
pub(crate) fn file_name(path: &str) -> (r: Option<String>)
    ensures
        plain_file(path@) ==> (r is Some && r->Some_0@ == last_name(path@)),
{
    std::path::Path::new(path).file_name().map(|s| s.to_string_lossy().to_string())
}

/// `Path::file_stem`, as text (lossily converted).  Claimed only for a
/// plain file path: as std documents it, the part of the file name before
/// its final `.`, or the whole name when it has no `.` or only a leading one.
/// And for a path ending in a `.pdf` name: the stem ends in that name
/// without `.pdf`, after the last `/` or `\` (on Unix the stem is the text
/// after the last `/`, which may hold `\`; on Windows it is that name).
#[verifier::external_body]
pub(crate) fn file_stem(path: &str) -> (r: Option<String>)
    ensures
        plain_file(path@) ==> (r is Some && r->Some_0@ == name_stem(last_name(path@))),
        pdf_tail_path(path@) ==> (r is Some && sep_tail(r->Some_0@) == pdf_stem_tail(path@)),
{
    std::path::Path::new(path).file_stem().map(|s| s.to_string_lossy().to_string())
}

/// `Path::extension`, as text (lossily converted).  Claimed only for a
/// plain file path: as std documents it, the part of the file name after
/// its final `.`, none when it has no `.` or only a leading one; and `pdf`
/// for a path ending in a `.pdf` name, whose file name ends so on every
/// platform.
#[verifier::external_body]
pub(crate) fn extension(path: &str) -> (r: Option<String>)
    ensures
        plain_file(path@) ==> ((r is Some <==> name_extension(last_name(path@)) is Some) && (r is Some
            ==> r->Some_0@ == name_extension(last_name(path@))->Some_0)),
        pdf_tail_path(path@) ==> (r is Some && r->Some_0@ == pdf_ext()),
{
    std::path::Path::new(path).extension().map(|s| s.to_string_lossy().to_string())
}

/// `Path::parent`, as text (lossily converted).  Claimed only for a plain
/// path: its last component is a name, so `parent` is the path without it,
/// which is `plain_parent` (std documents `parent` as the path without its
/// final component, `None` only for a root, a prefix or the empty path).
#[verifier::external_body]
pub(crate) fn parent(path: &str) -> (r: Option<String>)
    ensures
        plain_path(path@) ==> (r is Some && r->Some_0@ == plain_parent(path@)),
{
    std::path::Path::new(path).parent().map(|p| p.to_string_lossy().to_string())
}

/// `Path::eq`: whether two paths have the same components.  Claimed only
/// what holds on every platform: a path is the same as itself, and two
/// plain paths are the same exactly when their texts are (their components
/// are their names, so equal components mean equal texts).  Paths that
/// differ as texts but compare equal (`a//b` and `a/b`, or on Windows
/// `a\b` and `a/b`) are left unsaid.  Also claimed: two paths ending in
/// `.pdf` names that differ after their last `/` or `\` differ, since
/// their last components differ on every platform.
#[verifier::external_body]
pub(crate) fn same_path(a: &str, b: &str) -> (r: bool)
    ensures
        a@ == b@ ==> r,
        plain_path(a@) && plain_path(b@) ==> r == (a@ == b@),
        pdf_tail_path(a@) && pdf_tail_path(b@) && sep_tail(a@) != sep_tail(b@) ==> !r,
{
    std::path::Path::new(a) == std::path::Path::new(b)
}

/// `Path::join`, as text (lossily converted).  Claimed only what holds on
/// every platform for a base without a prefix and a single name: the name
/// is appended after the platform's separator (`/` or `\`), which is left
/// out after an empty base or one that ends in `/`.  Also claimed for any
/// base: a name whose final part (after its last `/` or `\`) is longer
/// than `..` ends the result's final part (it is appended, or, when the
/// name is absolute, replaces the base; Windows verbatim bases rebuild
/// their components but keep it last; after a bare drive such as `C:` no
/// separator comes between).
#[verifier::external_body]
pub(crate) fn join(base: &str, name: &str) -> (r: String)
    ensures
        join_base(base@) && single_name(name@) ==> joined_either(r@, base@, name@),
        sep_tail(name@).len() > 2 ==> ends_with(sep_tail(r@), sep_tail(name@)),
{
    std::path::Path::new(base).join(name).to_string_lossy().to_string()
}

} // verus!
