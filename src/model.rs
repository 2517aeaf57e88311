//! The two forms of a document node, and the plain records that callers exchange.
use vstd::prelude::*;
use crate::codec::segs_view;

verus! {

/// A node of the document tree. `path` holds the segments from the root, the markdown
/// extension left off; `children` is empty for a file.
pub struct Doc {
    pub name: String,
    pub id: String,
    pub is_file: bool,
    pub children: Vec<Doc>,
    pub path: Vec<String>,
    pub headings: Vec<String>,
    pub keywords: Vec<String>,
}

/// A node of the flat map: the tree node without its children, with the keys of its direct
/// children and the key of its parent (`None` at the root level).
pub struct NormalizedDoc {
    pub name: String,
    pub id: String,
    pub is_file: bool,
    pub children_keys: Vec<String>,
    pub path: Vec<String>,
    pub headings: Vec<String>,
    pub keywords: Vec<String>,
    pub parent_key: Option<String>,
}

/// The mathematical form of a [`NormalizedDoc`].
pub struct NormV {
    pub name: Seq<char>,
    pub id: Seq<char>,
    pub is_file: bool,
    pub children_keys: Seq<Seq<char>>,
    pub path: Seq<Seq<char>>,
    pub headings: Seq<Seq<char>>,
    pub keywords: Seq<Seq<char>>,
    pub parent_key: Option<Seq<char>>,
}

pub open spec fn opt_view(o: Option<String>) -> Option<Seq<char>> {
    match o {
        Some(s) => Some(s@),
        None => None,
    }
}

impl View for NormalizedDoc {
    type V = NormV;

    open spec fn view(&self) -> NormV {
        NormV {
            name: self.name@,
            id: self.id@,
            is_file: self.is_file,
            children_keys: segs_view(self.children_keys@),
            path: segs_view(self.path@),
            headings: segs_view(self.headings@),
            keywords: segs_view(self.keywords@),
            parent_key: opt_view(self.parent_key),
        }
    }
}

/// The content of a markdown file with the data kept about it.
pub struct Article {
    pub content: String,
    pub file_path: String,
    pub headings: Vec<String>,
    pub keywords: Vec<String>,
}

/// Asks for the article under a key.
pub struct GetArticleQuery {
    pub file_path: String,
}

/// Asks to create a file or a directory under a key.
pub struct CreateDocRequest {
    pub file_path: String,
    pub is_file: bool,
}

/// Asks to replace an article's content.
pub struct UpdateArticleRequest {
    pub file_path: String,
    pub content: String,
}

/// Asks to rename the node under a key.
pub struct UpdateDocNameRequest {
    pub file_path: String,
    pub name: String,
    pub is_file: bool,
}

/// Asks to copy or move a node to another key.
pub struct CopyCutDocRequest {
    pub copy_cut_path: String,
    pub paste_path: String,
    pub is_copy: bool,
    pub is_file: bool,
}

/// Asks to delete the node under a key.
pub struct DeleteDocRequest {
    pub file_path: String,
    pub is_file: bool,
}

/// A copy of a vector of strings.
pub fn copy_strings(v: &Vec<String>) -> (r: Vec<String>)
    ensures
        segs_view(r@) == segs_view(v@),
        r@.len() == v@.len(),
{
    let mut r: Vec<String> = Vec::new();
    let mut i: usize = 0;
    while i < v.len()
        invariant
            0 <= i <= v@.len(),
            segs_view(r@) == segs_view(v@.take(i as int)),
            r@.len() == i,
        decreases v@.len() - i,
    {
        let c = v[i].clone();
        let ghost before = r@;
        r.push(c);
        assert(r@ == before.push(c));
        assert forall|j: int| 0 <= j < r@.len() implies #[trigger] r@[j]@ == v@.take(
            i as int + 1,
        )[j]@ by {
            if j < i {
                assert(segs_view(before)[j] == segs_view(v@.take(i as int))[j]);
            }
        }
        assert(segs_view(r@) =~= segs_view(v@.take(i as int + 1)));
        i = i + 1;
    }
    assert(v@.take(v@.len() as int) =~= v@);
    r
}

impl NormalizedDoc {
    /// A copy of this node.
    pub fn duplicate(&self) -> (r: NormalizedDoc)
        ensures
            r@ == self@,
    {
        let parent_key = match &self.parent_key {
            Some(k) => Some(k.clone()),
            None => None,
        };
        NormalizedDoc {
            name: self.name.clone(),
            id: self.id.clone(),
            is_file: self.is_file,
            children_keys: copy_strings(&self.children_keys),
            path: copy_strings(&self.path),
            headings: copy_strings(&self.headings),
            keywords: copy_strings(&self.keywords),
            parent_key,
        }
    }
}

} // verus!
