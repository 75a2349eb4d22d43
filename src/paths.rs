//! Paths as strings: their components, suffix and prefix tests, and the
//! lookup of a reference's file target among the vault's files.
use crate::references::string_views;
use crate::text::{lower_of, lowercase, nfc, nfc_of};
use vstd::prelude::*;

verus! {

/// The pieces of `s` between slashes, empty ones included.
pub open spec fn segments(s: Seq<char>) -> Seq<Seq<char>>
    decreases s.len(),
{
    if s.len() == 0 {
        seq![seq![]]
    } else {
        let p = segments(s.drop_last());
        if s.last() == '/' {
            p.push(seq![])
        } else {
            p.update(p.len() - 1, p.last().push(s.last()))
        }
    }
}

/// Whether the `i`-th segment names a component: empty segments never do, and
/// `.` only at the start.
pub open spec fn keeps_segment(seg: Seq<char>, i: int) -> bool {
    seg.len() > 0 && (seg != seq!['.'] || i == 0)
}

/// The segments among `segs` that name components, in order.
pub open spec fn kept_segments(segs: Seq<Seq<char>>) -> Seq<Seq<char>>
    decreases segs.len(),
{
    if segs.len() == 0 {
        seq![]
    } else {
        let r = kept_segments(segs.drop_last());
        if keeps_segment(segs.last(), segs.len() - 1) {
            r.push(segs.last())
        } else {
            r
        }
    }
}

/// The root component (written `/`) of an absolute path.
pub open spec fn root_component(s: Seq<char>) -> Seq<Seq<char>> {
    if s.len() > 0 && s[0] == '/' {
        seq![seq!['/']]
    } else {
        seq![]
    }
}

/// The components of the Unix path `s`: its root, then its non-empty
/// segments, where `.` counts only as the first one.
pub open spec fn components(s: Seq<char>) -> Seq<Seq<char>> {
    root_component(s) + kept_segments(segments(s))
}

/// Whether the components of `child` end the components of `path`.
pub open spec fn path_ends_with(path: Seq<char>, child: Seq<char>) -> bool {
    let p = components(path);
    let c = components(child);
    c.len() <= p.len() && p.subrange(p.len() - c.len(), p.len() as int) == c
}

/// Whether the components of `base` begin the components of `path`.
pub open spec fn path_starts_with(path: Seq<char>, base: Seq<char>) -> bool {
    let p = components(path);
    let b = components(base);
    b.len() <= p.len() && p.take(b.len() as int) == b
}

proof fn lemma_segments_plain(a: Seq<char>, b: Seq<char>)
    requires
        forall|k: int| 0 <= k < b.len() ==> b[k] != '/',
    ensures
        segments(a + seq!['/'] + b) == segments(a).push(b),
        segments(b) == seq![b],
    decreases b.len(),
{
    if b.len() == 0 {
        assert((a + seq!['/'] + b).drop_last() =~= a);
        assert((a + seq!['/'] + b).last() == '/');
        assert(b =~= Seq::<char>::empty());
        assert(segments(b) =~~= seq![b]);
        assert(segments(a + seq!['/'] + b) =~~= segments(a).push(b));
    } else {
        let b0 = b.drop_last();
        lemma_segments_plain(a, b0);
        assert((a + seq!['/'] + b).drop_last() =~= a + seq!['/'] + b0);
        assert((a + seq!['/'] + b).last() == b.last());
        assert(b.drop_last() =~= b0);
        assert(b0.push(b.last()) =~= b);
        assert(segments(a).push(b0).update(segments(a).len() as int, b) =~~= segments(a).push(b));
        assert(seq![b0].update(0, b) =~~= seq![b]);
    }
}

/// A path whose last segment is `stem.md` is named by that file name and by
/// the stem alone: both forms of a reference match it, as written and, when
/// the lowercase forms stand in the same relation, in lowercase too.
pub proof fn lemma_extension_agnostic(dir: Seq<char>, stem: Seq<char>, lower_path: Seq<char>, lower_stem: Seq<char>)
    requires
        stem.len() > 0,
        forall|k: int| 0 <= k < stem.len() ==> stem[k] != '/',
    ensures
        path_ends_with(dir + seq!['/'] + (stem + md_suffix()), stem + md_suffix()),
        matches_forms(dir + seq!['/'] + (stem + md_suffix()), lower_path, stem, lower_stem),
        matches_forms(
            dir + seq!['/'] + (stem + md_suffix()),
            lower_path,
            stem + md_suffix(),
            lower_stem,
        ),
{
    let name = stem + md_suffix();
    let path = dir + seq!['/'] + name;
    assert forall|k: int| 0 <= k < name.len() implies name[k] != '/' by {
        if k >= stem.len() {
            assert(name[k] == md_suffix()[k - stem.len()]);
        }
    }
    lemma_segments_plain(dir, name);
    assert(name.len() > 3);
    assert(name != seq!['.']) by {
        assert(name.len() != seq!['.'].len());
    }
    let segs = segments(dir);
    assert(segs.push(name).drop_last() =~= segs);
    assert(seq![name].drop_last() =~= Seq::<Seq<char>>::empty());
    assert(kept_segments(Seq::<Seq<char>>::empty()) == Seq::<Seq<char>>::empty());
    assert(keeps_segment(name, 0));
    assert(seq![name].last() == name);
    assert(kept_segments(seq![name]) =~~= seq![name]);
    assert(name[0] != '/');
    assert(components(name) =~~= seq![name]);
    let p = components(path);
    assert(p == root_component(path) + kept_segments(segs).push(name));
    assert(p.subrange(p.len() - 1, p.len() as int) =~~= seq![name]);
}

/// The components of the path `s`.
pub fn path_components(s: &str) -> (r: Vec<String>)
    ensures
        string_views(r@) == components(s@),
{
    let n = s.unicode_len();
    let mut out: Vec<String> = Vec::new();
    if n > 0 && s.get_char(0) == '/' {
        proof { reveal_strlit("/"); }
        out.push(String::from_str("/"));
    }
    assert(string_views(out@) =~~= root_component(s@) + kept_segments(seq![]));
    let mut start: usize = 0;
    let mut i: usize = 0;
    let ghost mut done: Seq<Seq<char>> = seq![];
    assert(s@.take(0) =~= seq![]);
    assert(s@.subrange(0, 0) =~= seq![]);
    while i < n
        invariant
            n == s@.len(),
            start <= i <= n,
            (start == 0) == (done.len() == 0),
            segments(s@.take(i as int)) == done.push(s@.subrange(start as int, i as int)),
            string_views(out@) == root_component(s@) + kept_segments(done),
        decreases n - i,
    {
        let ghost cur = s@.subrange(start as int, i as int);
        assert(s@.take(i + 1).drop_last() =~= s@.take(i as int));
        assert(s@.take(i + 1).last() == s@[i as int]);
        let c = s.get_char(i);
        if c == '/' {
            let seg = s.substring_char(start, i);
            let keep = seg.unicode_len() > 0 && (!crate::text::is_char_text(seg, '.')
                || start == 0);
            let ghost before = out@;
            if keep {
                out.push(String::from_str(seg));
                assert(string_views(out@) =~= string_views(before).push(seg@));
            }
            proof {
                assert(kept_segments(done.push(cur)).len() >= 0);
                assert(done.push(cur).drop_last() =~= done);
                assert(done.push(cur).push(seq![]) =~~= done.push(cur).push(
                    s@.subrange(i + 1, i + 1),
                ));
                done = done.push(cur);
            }
            start = i + 1;
        } else {
            assert(done.push(cur).update(done.len() as int, cur.push(c)) =~~= done.push(
                s@.subrange(start as int, i + 1),
            ));
        }
        i = i + 1;
    }
    let ghost cur = s@.subrange(start as int, n as int);
    let seg = s.substring_char(start, n);
    let keep = seg.unicode_len() > 0 && (!crate::text::is_char_text(seg, '.') || start == 0);
    assert(s@.take(n as int) =~= s@);
    let ghost before = out@;
    if keep {
        out.push(String::from_str(seg));
        assert(string_views(out@) =~= string_views(before).push(seg@));
    }
    assert(done.push(cur).drop_last() =~= done);
    out
}

/// Whether `b` holds, element by element, the strings of `a` from `off` on.
fn same_run(a: &Vec<String>, off: usize, b: &Vec<String>) -> (r: bool)
    requires
        off + b@.len() <= a@.len(),
    ensures
        r == (string_views(a@).subrange(off as int, off + b@.len()) == string_views(b@)),
{
    let n = a.len();
    let mut j: usize = 0;
    while j < b.len()
        invariant
            n == a@.len(),
            off + b@.len() <= a@.len(),
            j <= b@.len(),
            forall|k: int| 0 <= k < j ==> a@[off + k]@ == b@[k]@,
        decreases b@.len() - j,
    {
        if a[off + j] != b[j] {
            assert(string_views(a@).subrange(off as int, off + b@.len())[j as int] != string_views(b@)[j as int]);
            return false;
        }
        j = j + 1;
    }
    assert(string_views(a@).subrange(off as int, off + b@.len()) =~= string_views(b@));
    true
}

/// Whether `path` ends with the components of `child`, as `Path::ends_with`
/// decides on Unix.
pub fn ends_with(path: &str, child: &str) -> (r: bool)
    ensures
        r == path_ends_with(path@, child@),
{
    let p = path_components(path);
    let c = path_components(child);
    if c.len() > p.len() {
        return false;
    }
    same_run(&p, p.len() - c.len(), &c)
}

/// Whether `path` begins with the components of `base`, as `Path::starts_with`
/// decides on Unix.
pub fn starts_with(path: &str, base: &str) -> (r: bool)
    ensures
        r == path_starts_with(path@, base@),
{
    let p = path_components(path);
    let b = path_components(base);
    if b.len() > p.len() {
        return false;
    }
    let r = same_run(&p, 0, &b);
    assert(string_views(p@).subrange(0, b@.len() as int) =~= string_views(p@).take(b@.len() as int));
    r
}

/// The extension that marks a document.
pub open spec fn md_suffix() -> Seq<char> {
    seq!['.', 'm', 'd']
}

/// Whether the path names a document: its last component has a non-empty
/// stem and the extension `md`.
pub open spec fn is_markdown_path(path: Seq<char>) -> bool {
    let c = components(path);
    c.len() > 0 && c.last().len() > 3 && c.last().subrange(c.last().len() - 3, c.last().len() as int)
        == md_suffix()
}

/// Whether `path` names a markdown document.
pub fn is_markdown(path: &str) -> (r: bool)
    ensures
        r == is_markdown_path(path@),
{
    let c = path_components(path);
    if c.len() == 0 {
        return false;
    }
    let last = c[c.len() - 1].as_str();
    assert(last@ == components(path@).last());
    let n = last.unicode_len();
    if n <= 3 {
        return false;
    }
    let r = last.get_char(n - 3) == '.' && last.get_char(n - 2) == 'm' && last.get_char(n - 1) == 'd';
    assert(r == (last@.subrange(n - 3, n as int) =~= md_suffix()));
    r
}

/// The NFC form of a path, by which paths are compared.
pub fn normalize_path(path: &str) -> (r: String)
    ensures
        r@ == nfc_of(path@),
{
    nfc(path)
}

/// Whether two paths name the same file: their NFC forms are equal.
pub fn same_file(a: &str, b: &str) -> (r: bool)
    ensures
        r == (nfc_of(a@) == nfc_of(b@)),
{
    normalize_path(a) == normalize_path(b)
}

/// Whether a path matches a reference's file target, given the NFC form of
/// each and the lowercase form of each NFC form: the path ends with the
/// target, or with the target and `.md`, exactly or in lowercase.
pub open spec fn matches_forms(
    path: Seq<char>,
    path_lower: Seq<char>,
    target: Seq<char>,
    target_lower: Seq<char>,
) -> bool {
    path_ends_with(path, target) || path_ends_with(path, target + md_suffix()) || path_ends_with(
        path_lower,
        target_lower,
    ) || path_ends_with(path_lower, target_lower + md_suffix())
}

/// Whether the vault path `path` matches the file target `target`.
pub open spec fn matches_target(path: Seq<char>, target: Seq<char>) -> bool {
    matches_forms(nfc_of(path), lower_of(nfc_of(path)), nfc_of(target), lower_of(nfc_of(target)))
}

/// `s` followed by the document extension.
fn with_md(s: &str) -> (r: String)
    ensures
        r@ == s@ + md_suffix(),
{
    proof { reveal_strlit(".md"); }
    String::from_str(s).concat(".md")
}

/// Whether a path matches a file target, given the normalized forms of both
/// (see `matches_forms`).
pub fn matches_normalized(path: &str, path_lower: &str, target: &str, target_lower: &str) -> (r:
    bool)
    ensures
        r == matches_forms(path@, path_lower@, target@, target_lower@),
{
    ends_with(path, target) || ends_with(path, with_md(target).as_str()) || ends_with(
        path_lower,
        target_lower,
    ) || ends_with(path_lower, with_md(target_lower).as_str())
}

/// The index of the first of `paths` that matches `target`.
pub open spec fn first_match(target: Seq<char>, paths: Seq<Seq<char>>, i: int) -> bool {
    0 <= i < paths.len() && matches_target(paths[i], target) && forall|j: int|
        0 <= j < i ==> !matches_target(paths[j], target)
}

/// The first path of the vault, in index order, that the file target
/// `filename` names: one whose NFC form ends with the target's NFC form, with
/// or without `.md`, compared as written or in lowercase.
pub fn lookup_filename_in_vault<'a>(filename: &str, vault_contents: &'a [String]) -> (r: Option<
    &'a String,
>)
    ensures
        r.is_none() <==> forall|i: int|
            0 <= i < vault_contents@.len() ==> !matches_target(vault_contents@[i]@, filename@),
        r.is_some() ==> exists|i: int|
            first_match(filename@, string_views(vault_contents@), i) && *r.unwrap()
                == vault_contents@[i],
{
    let target = nfc(filename);
    let target_lower = lowercase(target.as_str());
    let mut i: usize = 0;
    while i < vault_contents.len()
        invariant
            i <= vault_contents@.len(),
            target@ == nfc_of(filename@),
            target_lower@ == lower_of(target@),
            forall|j: int| 0 <= j < i ==> !matches_target(vault_contents@[j]@, filename@),
        decreases vault_contents@.len() - i,
    {
        let path = nfc(vault_contents[i].as_str());
        let path_lower = lowercase(path.as_str());
        if matches_normalized(path.as_str(), path_lower.as_str(), target.as_str(), target_lower.as_str()) {
            assert(first_match(filename@, string_views(vault_contents@), i as int));
            return Some(&vault_contents[i]);
        }
        i = i + 1;
    }
    None
}

} // verus!
