//! File-name search: which markdown files match a query, and in what order.
use vstd::prelude::*;
use vstd::string::*;
use vstd::utf8::*;
use crate::codec::{join_with, push_char, segs_view};
use crate::media::{bytes_at, extension_of, path_extension};
use crate::model::copy_strings;
use crate::order::{lower_of, lowercase, precedes, Rank};
use crate::scan::{ends_with_md, is_markdown as name_is_markdown, strip_markdown};
use crate::settings::Settings;

verus! {

broadcast use vstd::seq::group_seq_axioms;

/// A markdown file whose name matches a query.
pub struct FileNameMatch {
    pub name: String,
    pub path: Vec<String>,
}

/// One line that matches a query.
pub struct LineMatch {
    pub line_number: u64,
    pub line_content: String,
}

/// The matching lines of one markdown file.
pub struct FileContentMatches {
    pub name: String,
    pub path: Vec<String>,
    pub matches: Vec<LineMatch>,
}

/// `n` occurs in `h`.
pub open spec fn bytes_contain(h: Seq<u8>, n: Seq<u8>) -> bool {
    exists|i: int| 0 <= i <= h.len() - n.len() && #[trigger] h.subrange(i, i + n.len()) == n
}

/// `h` starts with `n`.
pub open spec fn bytes_start(h: Seq<u8>, n: Seq<u8>) -> bool {
    n.len() <= h.len() && h.take(n.len() as int) == n
}

/// The document path of a file: its names from the root, the last without `.md`.
pub open spec fn doc_path_of_file(rel: Seq<Seq<char>>) -> Seq<Seq<char>> {
    if rel.len() > 0 && ends_with_md(rel.last()) {
        rel.update(rel.len() - 1, rel.last().take(rel.last().len() - 3))
    } else {
        rel
    }
}

/// A file whose extension is `md`.
pub open spec fn is_md_file(rel: Seq<Seq<char>>) -> bool {
    rel.len() > 0 && extension_of(rel.last()) == Some("md"@)
}

/// The lower-cased file name holds the lower-cased query.
pub open spec fn name_matches(stem: Seq<char>, q: Seq<char>) -> bool {
    bytes_contain(encode_utf8(lower_of(stem)), encode_utf8(lower_of(q)))
}

/// Names starting with the query come first, then by lower-cased name.
pub open spec fn match_rank(stem: Seq<char>, q: Seq<char>) -> (bool, Seq<u8>) {
    (!bytes_start(encode_utf8(lower_of(stem)), encode_utf8(lower_of(q))), encode_utf8(lower_of(stem)))
}

/// A found file: its rank, name and document path.
pub type Found = ((bool, Seq<u8>), Seq<char>, Seq<Seq<char>>);

/// `x` inserted before the first found file it ranks strictly before.
pub open spec fn insert_found(s: Seq<Found>, x: Found) -> Seq<Found>
    decreases s.len(),
{
    if s.len() == 0 {
        seq![x]
    } else if precedes(x.0, s[0].0) {
        seq![x] + s
    } else {
        seq![s[0]] + insert_found(s.drop_first(), x)
    }
}

/// The files among `files` whose name matches `q`, ranked.
pub open spec fn found_files(files: Seq<Seq<Seq<char>>>, q: Seq<char>) -> Seq<Found>
    decreases files.len(),
{
    if files.len() == 0 {
        seq![]
    } else {
        let prev = found_files(files.drop_last(), q);
        let f = files.last();
        let p = doc_path_of_file(f);
        if is_md_file(f) && name_matches(p.last(), q) {
            insert_found(prev, (match_rank(p.last(), q), p.last(), p))
        } else {
            prev
        }
    }
}

/// Inserting a found file is inserting it before the first it ranks before.
proof fn lemma_insert_found_at(s: Seq<Found>, x: Found, j: int)
    requires
        0 <= j <= s.len(),
        forall|i: int| 0 <= i < j ==> !precedes(x.0, #[trigger] s[i].0),
        j == s.len() || precedes(x.0, s[j].0),
    ensures
        insert_found(s, x) == s.insert(j, x),
    decreases s.len(),
{
    if s.len() == 0 {
        assert(s.insert(j, x) =~= seq![x]);
    } else if j == 0 {
        assert(s.insert(0, x) =~= seq![x] + s);
    } else {
        let rest = s.drop_first();
        assert forall|i: int| 0 <= i < j - 1 implies !precedes(x.0, #[trigger] rest[i].0) by {
            assert(rest[i] == s[i + 1]);
        }
        lemma_insert_found_at(rest, x, j - 1);
        assert(seq![s[0]] + rest.insert(j - 1, x) =~= s.insert(j, x));
    }
}

/// Whether `n` occurs in `h`.
fn contains_bytes(h: &[u8], n: &Vec<u8>) -> (r: bool)
    ensures
        r == bytes_contain(h@, n@),
{
    if n.len() > h.len() {
        return false;
    }
    let last = h.len() - n.len();
    let mut i: usize = 0;
    while i <= last
        invariant
            last == h@.len() - n@.len(),
            n@.len() <= h@.len(),
            0 <= i <= last,
            forall|j: int| 0 <= j < i ==> #[trigger] h@.subrange(j, j + n@.len()) != n@,
        decreases last - i,
    {
        if bytes_at(h, i, n) {
            return true;
        }
        if i == last {
            return false;
        }
        i = i + 1;
    }
    false
}

/// The UTF-8 bytes of a text, in a vector.
fn bytes_of(s: &str) -> (r: Vec<u8>)
    ensures
        r@ == encode_utf8(s@),
{
    s.as_bytes_vec()
}

/// One of the lower-cased patterns occurs in the lower-cased text.
pub open spec fn any_pattern_in(text: Seq<char>, pats: Seq<Seq<char>>) -> bool {
    exists|i: int| 0 <= i < pats.len() && bytes_contain(encode_utf8(lower_of(text)), encode_utf8(lower_of(#[trigger] pats[i])))
}

/// A file, given by its path from the root joined with `/`, passes the wanted and unwanted
/// patterns: with none given every file passes; else one wanted pattern (if any is given)
/// must occur in it and no unwanted pattern may, all lower-cased.
pub open spec fn passes_filters(rel: Seq<char>, wanted: Seq<Seq<char>>, unwanted: Seq<Seq<char>>) -> bool {
    (wanted.len() == 0 || any_pattern_in(rel, wanted)) && !any_pattern_in(rel, unwanted)
}

/// A file with matching lines: its rank (by lower-cased name), name, document path and lines.
pub type FoundContent = ((bool, Seq<u8>), Seq<char>, Seq<Seq<char>>, Seq<(u64, Seq<char>)>);

/// `x` inserted before the first file it ranks strictly before.
pub open spec fn insert_content(s: Seq<FoundContent>, x: FoundContent) -> Seq<FoundContent>
    decreases s.len(),
{
    if s.len() == 0 {
        seq![x]
    } else if precedes(x.0, s[0].0) {
        seq![x] + s
    } else {
        seq![s[0]] + insert_content(s.drop_first(), x)
    }
}

/// The view of matched lines.
pub open spec fn lines_view(v: Seq<LineMatch>) -> Seq<(u64, Seq<char>)> {
    v.map_values(|l: LineMatch| (l.line_number, l.line_content@))
}

/// The files with at least one matching line, ranked by lower-cased name.
pub open spec fn content_results(files: Seq<(Seq<Seq<char>>, Seq<(u64, Seq<char>)>)>) -> Seq<FoundContent>
    decreases files.len(),
{
    if files.len() == 0 {
        seq![]
    } else {
        let prev = content_results(files.drop_last());
        let (rel, lines) = files.last();
        let p = doc_path_of_file(rel);
        let name = if p.len() > 0 { p.last() } else { seq![] };
        if lines.len() > 0 {
            insert_content(prev, ((false, encode_utf8(lower_of(name))), name, p, lines))
        } else {
            prev
        }
    }
}

proof fn lemma_insert_content_at(s: Seq<FoundContent>, x: FoundContent, j: int)
    requires
        0 <= j <= s.len(),
        forall|i: int| 0 <= i < j ==> !precedes(x.0, #[trigger] s[i].0),
        j == s.len() || precedes(x.0, s[j].0),
    ensures
        insert_content(s, x) == s.insert(j, x),
    decreases s.len(),
{
    if s.len() == 0 {
        assert(s.insert(j, x) =~= seq![x]);
    } else if j == 0 {
        assert(s.insert(0, x) =~= seq![x] + s);
    } else {
        let rest = s.drop_first();
        assert forall|i: int| 0 <= i < j - 1 implies !precedes(x.0, #[trigger] rest[i].0) by {
            assert(rest[i] == s[i + 1]);
        }
        lemma_insert_content_at(rest, x, j - 1);
        assert(seq![s[0]] + rest.insert(j - 1, x) =~= s.insert(j, x));
    }
}

/// Whether one of the lower-cased patterns occurs in the lower-cased text bytes.
fn any_pattern(text: &Vec<u8>, pats: &Vec<String>) -> (r: bool)
    ensures
        forall|t: Seq<char>| text@ == encode_utf8(lower_of(t)) ==> r == any_pattern_in(t, segs_view(pats@)),
{
    let mut i: usize = 0;
    while i < pats.len()
        invariant
            0 <= i <= pats@.len(),
            forall|j: int| 0 <= j < i ==> !bytes_contain(text@, encode_utf8(lower_of(#[trigger] pats@[j]@))),
        decreases pats@.len() - i,
    {
        let l = lowercase(pats[i].as_str());
        let pb = bytes_of(l.as_str());
        if contains_bytes(text.as_slice(), &pb) {
            proof {
                assert forall|t: Seq<char>| text@ == encode_utf8(lower_of(t)) implies any_pattern_in(t, segs_view(pats@)) by {
                    assert(segs_view(pats@)[i as int] == pats@[i as int]@);
                }
            }
            return true;
        }
        i = i + 1;
    }
    proof {
        assert forall|t: Seq<char>| text@ == encode_utf8(lower_of(t)) implies !any_pattern_in(t, segs_view(pats@)) by {
            if any_pattern_in(t, segs_view(pats@)) {
                let j = choose|j: int| 0 <= j < segs_view(pats@).len() && bytes_contain(encode_utf8(lower_of(t)), encode_utf8(lower_of(#[trigger] segs_view(pats@)[j])));
                assert(segs_view(pats@)[j] == pats@[j]@);
            }
        }
    }
    false
}

/// A copy of matched lines.
fn copy_lines(v: &Vec<LineMatch>) -> (r: Vec<LineMatch>)
    ensures
        lines_view(r@) == lines_view(v@),
{
    let mut r: Vec<LineMatch> = Vec::new();
    let mut i: usize = 0;
    while i < v.len()
        invariant
            0 <= i <= v@.len(),
            lines_view(r@) == lines_view(v@.take(i as int)),
        decreases v@.len() - i,
    {
        let l = LineMatch { line_number: v[i].line_number, line_content: v[i].line_content.clone() };
        let ghost before = r@;
        r.push(l);
        assert(lines_view(r@) =~= lines_view(before).push((v@[i as int].line_number, v@[i as int].line_content@)));
        assert(lines_view(v@.take(i as int + 1)) =~= lines_view(v@.take(i as int)).push((v@[i as int].line_number, v@[i as int].line_content@)));
        i = i + 1;
    }
    assert(v@.take(v@.len() as int) =~= v@);
    r
}

/// The names of a path joined with `/`.
fn join_slash(rel: &Vec<String>) -> (r: String)
    ensures
        r@ == join_with(segs_view(rel@), '/'),
{
    let mut out = String::new();
    let mut i: usize = 0;
    while i < rel.len()
        invariant
            0 <= i <= rel@.len(),
            out@ == join_with(segs_view(rel@.take(i as int)), '/'),
        decreases rel@.len() - i,
    {
        let ghost prev = segs_view(rel@.take(i as int));
        let ghost next = segs_view(rel@.take(i as int + 1));
        assert(next.drop_last() =~= prev);
        if i > 0 {
            push_char(&mut out, '/');
        }
        out.append(rel[i].as_str());
        proof {
            if i == 0 {
                assert(next =~= seq![rel@[0]@]);
            }
        }
        assert(out@ =~= join_with(next, '/'));
        i = i + 1;
    }
    assert(rel@.take(rel@.len() as int) =~= rel@);
    out
}

/// Where the search looks: the document root, and the directory names it skips.
pub struct SearchService {
    ignore_dirs: Vec<String>,
    doc_root_path: String,
}

impl SearchService {
    pub closed spec fn spec_root(&self) -> Seq<char> {
        self.doc_root_path@
    }

    pub closed spec fn spec_ignore_dirs(&self) -> Seq<Seq<char>> {
        segs_view(self.ignore_dirs@)
    }

    /// A search over the settings' root.
    pub fn new(settings: &Settings) -> (r: SearchService)
        ensures
            r.spec_root() == settings.doc_root_path@,
            r.spec_ignore_dirs() == segs_view(settings.ignore_dirs@),
    {
        SearchService {
            ignore_dirs: copy_strings(&settings.ignore_dirs),
            doc_root_path: settings.doc_root_path.clone(),
        }
    }

    /// Takes the root and the skipped names from new settings.
    pub fn sync_settings(&mut self, settings: &Settings)
        ensures
            final(self).spec_root() == settings.doc_root_path@,
            final(self).spec_ignore_dirs() == segs_view(settings.ignore_dirs@),
    {
        self.ignore_dirs = copy_strings(&settings.ignore_dirs);
        self.doc_root_path = settings.doc_root_path.clone();
    }

    /// The document root.
    pub fn doc_root_path(&self) -> (r: &String)
        ensures
            r@ == self.spec_root(),
    {
        &self.doc_root_path
    }

    /// The directory names the search skips.
    pub fn ignore_dirs(&self) -> (r: &Vec<String>)
        ensures
            segs_view(r@) == self.spec_ignore_dirs(),
    {
        &self.ignore_dirs
    }

    /// Whether a file, given by its names from the root, has the `md` extension.
    pub fn is_markdown(rel: &Vec<String>) -> (r: bool)
        ensures
            r == is_md_file(segs_view(rel@)),
    {
        if rel.len() == 0 {
            return false;
        }
        proof {
            reveal_strlit("md");
        }
        match path_extension(rel[rel.len() - 1].as_str()) {
            Some(e) => e == "md".to_owned(),
            None => false,
        }
    }

    /// The document path of a file given by its names from the root: the last loses `.md`.
    pub fn fs_path_to_doc_path(rel: &Vec<String>) -> (r: Vec<String>)
        ensures
            segs_view(r@) == doc_path_of_file(segs_view(rel@)),
    {
        let mut parts = copy_strings(rel);
        let n = parts.len();
        if n > 0 && name_is_markdown(parts[n - 1].as_str()) {
            let stem = strip_markdown(parts[n - 1].as_str());
            parts.set(n - 1, stem);
            assert(segs_view(parts@) =~= doc_path_of_file(segs_view(rel@)));
        }
        parts
    }

    /// The markdown files among `files` (names from the root) whose lower-cased name holds
    /// the lower-cased query; those whose name starts with it first, then by lower-cased name.
    pub fn search_file_names(&self, files: &Vec<Vec<String>>, query: &str) -> (r: Vec<FileNameMatch>)
        ensures
            ({
                let found = found_files(files@.map_values(|f: Vec<String>| segs_view(f@)), query@);
                &&& r@.len() == found.len()
                &&& forall|i: int| 0 <= i < r@.len() ==> (#[trigger] r@[i]).name@ == found[i].1 && segs_view(r@[i].path@) == found[i].2
            }),
    {
        let ghost all = files@.map_values(|f: Vec<String>| segs_view(f@));
        let q = lowercase(query);
        let qb = bytes_of(q.as_str());
        let mut out: Vec<FileNameMatch> = Vec::new();
        let mut ranks: Vec<Rank> = Vec::new();
        let ghost mut fs: Seq<Found> = seq![];
        let mut k: usize = 0;
        while k < files.len()
            invariant
                all == files@.map_values(|f: Vec<String>| segs_view(f@)),
                qb@ == encode_utf8(lower_of(query@)),
                0 <= k <= files@.len(),
                fs == found_files(all.take(k as int), query@),
                out@.len() == fs.len(),
                ranks@.len() == fs.len(),
                forall|i: int| 0 <= i < fs.len() ==> (#[trigger] out@[i]).name@ == fs[i].1 && segs_view(out@[i].path@) == fs[i].2,
                forall|i: int| 0 <= i < fs.len() ==> (#[trigger] ranks@[i]).spec_rank() == fs[i].0,
            decreases files@.len() - k,
        {
            let f = &files[k];
            let ghost taken = all.take(k as int + 1);
            assert(taken.drop_last() =~= all.take(k as int));
            assert(taken.last() == segs_view(f@));
            if Self::is_markdown(f) {
                let p = Self::fs_path_to_doc_path(f);
                assert(segs_view(p@).len() == segs_view(f@).len());
                assert(p@.len() == f@.len());
                let stem = &p[p.len() - 1];
                let l = lowercase(stem.as_str());
                let lb = bytes_of(l.as_str());
                if contains_bytes(lb.as_slice(), &qb) {
                    let prefix = qb.len() <= lb.len() && bytes_at(lb.as_slice(), 0, &qb);
                    proof {
                        if qb@.len() <= lb@.len() {
                            assert(lb@.take(qb@.len() as int) =~= lb@.subrange(0, qb@.len() as int));
                        }
                    }
                    let rk = Rank { is_file: !prefix, text: lb };
                    let ghost x: Found = (match_rank(stem@, query@), stem@, segs_view(p@));
                    assert(rk.spec_rank() == x.0);
                    let mut j: usize = 0;
                    let mut stop = false;
                    while j < ranks.len() && !stop
                        invariant
                            ranks@.len() == fs.len(),
                            0 <= j <= ranks@.len(),
                            rk.spec_rank() == x.0,
                            forall|i: int| 0 <= i < fs.len() ==> (#[trigger] ranks@[i]).spec_rank() == fs[i].0,
                            forall|i: int| 0 <= i < j ==> !precedes(x.0, #[trigger] fs[i].0),
                            stop ==> j < fs.len() && precedes(x.0, fs[j as int].0),
                        decreases ranks@.len() - j + (if stop { 0int } else { 1int }),
                    {
                        if rk.precedes(&ranks[j]) {
                            stop = true;
                        } else {
                            j = j + 1;
                        }
                    }
                    proof {
                        lemma_insert_found_at(fs, x, j as int);
                    }
                    let m = FileNameMatch { name: stem.clone(), path: copy_strings(&p) };
                    let ghost out0 = out@;
                    let ghost r0 = ranks@;
                    out.insert(j, m);
                    ranks.insert(j, rk);
                    proof {
                        let fs2 = fs.insert(j as int, x);
                        assert forall|i: int| 0 <= i < fs2.len() implies (#[trigger] out@[i]).name@ == fs2[i].1 && segs_view(out@[i].path@) == fs2[i].2 && ranks@[i].spec_rank() == fs2[i].0 by {
                            assert(fs2[i] == if i < j { fs[i] } else if i == j { x } else { fs[i - 1] });
                            if i < j {
                                assert(out@[i] == out0[i] && ranks@[i] == r0[i]);
                            } else if i > j {
                                assert(out@[i] == out0[i - 1] && ranks@[i] == r0[i - 1]);
                            }
                        }
                        fs = fs2;
                    }
                }
            }
            k = k + 1;
        }
        assert(all.take(files@.len() as int) =~= all);
        out
    }

    /// Whether a file, given by its names from the root, passes the wanted and unwanted
    /// patterns of a content search.
    pub fn passes_path_filters(rel: &Vec<String>, wanted: &Vec<String>, unwanted: &Vec<String>) -> (r: bool)
        ensures
            r == passes_filters(join_with(segs_view(rel@), '/'), segs_view(wanted@), segs_view(unwanted@)),
    {
        if wanted.len() == 0 && unwanted.len() == 0 {
            return true;
        }
        let joined = join_slash(rel);
        let lower = lowercase(joined.as_str());
        let text = bytes_of(lower.as_str());
        if wanted.len() > 0 && !any_pattern(&text, wanted) {
            return false;
        }
        !any_pattern(&text, unwanted)
    }

    /// The files with at least one matching line, given by their names from the root, as
    /// results ordered by lower-cased name (files that tie keep their order).
    pub fn content_matches(&self, files: &Vec<(Vec<String>, Vec<LineMatch>)>) -> (r: Vec<FileContentMatches>)
        ensures
            ({
                let found = content_results(files@.map_values(|f: (Vec<String>, Vec<LineMatch>)| (segs_view(f.0@), lines_view(f.1@))));
                &&& r@.len() == found.len()
                &&& forall|i: int| 0 <= i < r@.len() ==> (#[trigger] r@[i]).name@ == found[i].1
                    && segs_view(r@[i].path@) == found[i].2 && lines_view(r@[i].matches@) == found[i].3
            }),
    {
        let ghost all = files@.map_values(|f: (Vec<String>, Vec<LineMatch>)| (segs_view(f.0@), lines_view(f.1@)));
        let ghost n = all.len();
        let mut out: Vec<FileContentMatches> = Vec::new();
        let mut ranks: Vec<Rank> = Vec::new();
        let ghost mut fs: Seq<FoundContent> = seq![];
        let mut k: usize = 0;
        while k < files.len()
            invariant
                n == files@.len(),
                0 <= k <= n,
                all == files@.map_values(|f: (Vec<String>, Vec<LineMatch>)| (segs_view(f.0@), lines_view(f.1@))),
                fs == content_results(all.take(k as int)),
                out@.len() == fs.len(),
                ranks@.len() == fs.len(),
                forall|i: int| 0 <= i < fs.len() ==> (#[trigger] out@[i]).name@ == fs[i].1 && segs_view(out@[i].path@) == fs[i].2 && lines_view(out@[i].matches@) == fs[i].3,
                forall|i: int| 0 <= i < fs.len() ==> (#[trigger] ranks@[i]).spec_rank() == fs[i].0,
            decreases n - k,
        {
            let rel = &files[k].0;
            let lines = &files[k].1;
            let ghost taken = all.take(k as int + 1);
            assert(taken.drop_last() =~= all.take(k as int));
            assert(taken.last() == all[k as int]);
            assert((segs_view(rel@), lines_view(lines@)) == all[k as int]);
            if lines.len() > 0 {
                let p = Self::fs_path_to_doc_path(rel);
                let name = if p.len() > 0 { p[p.len() - 1].clone() } else { String::new() };
                let l = lowercase(name.as_str());
                let lb = bytes_of(l.as_str());
                let rk = Rank { is_file: false, text: lb };
                let ghost x: FoundContent = ((false, encode_utf8(lower_of(name@))), name@, segs_view(p@), lines_view(lines@));
                assert(rk.spec_rank() == x.0);
                let mut j: usize = 0;
                let mut stop = false;
                while j < ranks.len() && !stop
                    invariant
                        ranks@.len() == fs.len(),
                        0 <= j <= ranks@.len(),
                        rk.spec_rank() == x.0,
                        forall|i: int| 0 <= i < fs.len() ==> (#[trigger] ranks@[i]).spec_rank() == fs[i].0,
                        forall|i: int| 0 <= i < j ==> !precedes(x.0, #[trigger] fs[i].0),
                        stop ==> j < fs.len() && precedes(x.0, fs[j as int].0),
                    decreases ranks@.len() - j + (if stop { 0int } else { 1int }),
                {
                    if rk.precedes(&ranks[j]) {
                        stop = true;
                    } else {
                        j = j + 1;
                    }
                }
                proof {
                    lemma_insert_content_at(fs, x, j as int);
                    if p@.len() > 0 {
                        assert(segs_view(p@).last() == p@[p@.len() - 1]@);
                    } else {
                        assert(name@ =~= Seq::<char>::empty());
                    }
                }
                let m = FileContentMatches { name, path: p, matches: copy_lines(lines) };
                let ghost out0 = out@;
                let ghost r0 = ranks@;
                out.insert(j, m);
                ranks.insert(j, rk);
                proof {
                    let fs2 = fs.insert(j as int, x);
                    assert forall|i: int| 0 <= i < fs2.len() implies (#[trigger] out@[i]).name@ == fs2[i].1 && segs_view(out@[i].path@) == fs2[i].2 && lines_view(out@[i].matches@) == fs2[i].3 && ranks@[i].spec_rank() == fs2[i].0 by {
                        assert(fs2[i] == if i < j { fs[i] } else if i == j { x } else { fs[i - 1] });
                        if i < j {
                            assert(out@[i] == out0[i] && ranks@[i] == r0[i]);
                        } else if i > j {
                            assert(out@[i] == out0[i - 1] && ranks@[i] == r0[i - 1]);
                        }
                    }
                    fs = fs2;
                }
            }
            k = k + 1;
        }
        assert(all.take(n as int) =~= all);
        out
    }
}

} // verus!
