//! Which filesystem entries a scan turns into document nodes.
use vstd::prelude::*;
use vstd::string::*;
use crate::codec::segs_view;

verus! {

broadcast use vstd::seq::group_seq_axioms;

/// One entry met while walking the document root: its names from the root down, and whether
/// it is a directory.
pub struct ScanItem {
    pub path: Vec<String>,
    pub is_dir: bool,
}

/// The markdown extension.
pub open spec fn md_ext() -> Seq<char> {
    seq!['.', 'm', 'd']
}

/// The name ends with `.md`.
pub open spec fn ends_with_md(name: Seq<char>) -> bool {
    name.len() >= 3 && name.skip(name.len() - 3) == md_ext()
}

/// The name starts with `.`.
pub open spec fn is_hidden(name: Seq<char>) -> bool {
    name.len() > 0 && name[0] == '.'
}

/// A scan keeps this entry: a markdown file, or a directory that is not ignored; hidden
/// entries are left out either way.
pub open spec fn accepted(path: Seq<Seq<char>>, is_dir: bool, ignore: Seq<Seq<char>>) -> bool {
    &&& path.len() >= 1
    &&& !is_hidden(path.last())
    &&& if is_dir {
        !ignore.contains(path.last())
    } else {
        ends_with_md(path.last())
    }
}

/// The document path of a kept entry: a file loses its `.md`.
pub open spec fn doc_path_of(path: Seq<Seq<char>>, is_dir: bool) -> Seq<Seq<char>> {
    if is_dir {
        path
    } else {
        path.update(path.len() - 1, path.last().take(path.last().len() - 3))
    }
}

/// Whether a file name has the markdown extension.
pub fn is_markdown(file_name: &str) -> (r: bool)
    ensures
        r == ends_with_md(file_name@),
{
    let n = file_name.unicode_len();
    if n < 3 {
        return false;
    }
    let a = file_name.get_char(n - 3);
    let b = file_name.get_char(n - 2);
    let c = file_name.get_char(n - 1);
    let r = a == '.' && b == 'm' && c == 'd';
    assert(r == (file_name@.skip(n - 3) =~= md_ext()));
    r
}

/// The file name without its `.md`.
pub fn strip_markdown(file_name: &str) -> (r: String)
    requires
        ends_with_md(file_name@),
    ensures
        r@ == file_name@.take(file_name@.len() - 3),
{
    let n = file_name.unicode_len();
    file_name.substring_char(0, n - 3).to_owned()
}

/// Whether a name starts with `.`.
pub fn is_hidden_name(name: &str) -> (r: bool)
    ensures
        r == is_hidden(name@),
{
    if name.unicode_len() == 0 {
        false
    } else {
        name.get_char(0) == '.'
    }
}

/// Whether `names` holds `name`.
pub fn contains_name(names: &Vec<String>, name: &String) -> (r: bool)
    ensures
        r == segs_view(names@).contains(name@),
{
    let mut i: usize = 0;
    while i < names.len()
        invariant
            0 <= i <= names@.len(),
            forall|j: int| 0 <= j < i ==> (#[trigger] names@[j])@ != name@,
        decreases names@.len() - i,
    {
        if names[i] == *name {
            assert(segs_view(names@)[i as int] == name@);
            return true;
        }
        i = i + 1;
    }
    assert(!segs_view(names@).contains(name@)) by {
        if segs_view(names@).contains(name@) {
            let j = choose|j: int| 0 <= j < names@.len() && segs_view(names@)[j] == name@;
            assert(names@[j]@ == name@);
        }
    }
    false
}

/// Whether a walk goes into the directory with this name.
pub fn is_scanned_dir(name: &String, ignore_dirs: &Vec<String>) -> (r: bool)
    ensures
        r == (!is_hidden(name@) && !segs_view(ignore_dirs@).contains(name@)),
{
    !is_hidden_name(name.as_str()) && !contains_name(ignore_dirs, name)
}

/// The document path of an entry that a scan keeps, or `None`.
pub fn scanned_doc_path(item: &ScanItem, ignore_dirs: &Vec<String>) -> (r: Option<Vec<String>>)
    ensures
        match r {
            Some(p) => accepted(segs_view(item.path@), item.is_dir, segs_view(ignore_dirs@))
                && segs_view(p@) == doc_path_of(segs_view(item.path@), item.is_dir),
            None => !accepted(segs_view(item.path@), item.is_dir, segs_view(ignore_dirs@)),
        },
{
    let n = item.path.len();
    if n == 0 {
        return None;
    }
    let name = &item.path[n - 1];
    assert(segs_view(item.path@).last() == name@);
    if is_hidden_name(name.as_str()) {
        return None;
    }
    if item.is_dir {
        if contains_name(ignore_dirs, name) {
            return None;
        }
        Some(crate::model::copy_strings(&item.path))
    } else {
        if !is_markdown(name.as_str()) {
            return None;
        }
        let stem = strip_markdown(name.as_str());
        let mut p = crate::model::copy_strings(&item.path);
        p.set(n - 1, stem);
        assert(segs_view(p@) =~= doc_path_of(segs_view(item.path@), item.is_dir));
        Some(p)
    }
}

} // verus!
