//! What an uploaded image is: its extension and its MIME type.
use vstd::prelude::*;
use vstd::string::*;
use crate::codec::push_char;
use crate::order::{lower_of, lowercase};
use crate::settings::Settings;

verus! {

broadcast use vstd::seq::group_seq_axioms;

/// The position of the last `c` in `s`, or -1.
pub open spec fn last_index(s: Seq<char>, c: char) -> int
    decreases s.len(),
{
    if s.len() == 0 {
        -1
    } else if s.last() == c {
        s.len() - 1
    } else {
        last_index(s.drop_last(), c)
    }
}

/// The extension of a path: what follows the last `.` of its last component, where that
/// `.` does not open the component.
pub open spec fn extension_of(p: Seq<char>) -> Option<Seq<char>> {
    let name = p.skip(last_index(p, '/') + 1);
    let i = last_index(name, '.');
    if i <= 0 {
        None
    } else {
        Some(name.skip(i + 1))
    }
}

/// The extension that the first bytes of an image announce, `png` when none does.
pub open spec fn magic_ext(d: Seq<u8>) -> Seq<char> {
    if d.len() < 12 {
        "png"@
    } else if d.take(8) == seq![0x89u8, 0x50, 0x4E, 0x47, 0x0D, 0x0A, 0x1A, 0x0A] {
        "png"@
    } else if d.take(3) == seq![0xFFu8, 0xD8, 0xFF] {
        "jpg"@
    } else if d.take(6) == seq![71u8, 73, 70, 56, 55, 97] || d.take(6) == seq![71u8, 73, 70, 56, 57, 97] {
        "gif"@
    } else if d.take(4) == seq![82u8, 73, 70, 70] && d.subrange(8, 12) == seq![87u8, 69, 66, 80] {
        "webp"@
    } else if d[0] == 60 && (d.subrange(1, 4) == seq![115u8, 118, 103] || d.subrange(1, 5) == seq![
        63u8,
        120,
        109,
        108,
    ]) {
        "svg"@
    } else {
        "png"@
    }
}

/// The stored extension for a lower-cased extension of a known image type.
pub open spec fn known_ext(e: Seq<char>) -> Option<Seq<char>> {
    if e == "jpg"@ || e == "jpeg"@ {
        Some("jpg"@)
    } else if e == "png"@ || e == "gif"@ || e == "webp"@ || e == "svg"@ || e == "ico"@ || e == "bmp"@
        || e == "avif"@ {
        Some(e)
    } else {
        None
    }
}

/// The MIME type for a lower-cased extension.
pub open spec fn mime_of(e: Seq<char>) -> Seq<char> {
    if e == "png"@ {
        "image/png"@
    } else if e == "jpg"@ || e == "jpeg"@ {
        "image/jpeg"@
    } else if e == "gif"@ {
        "image/gif"@
    } else if e == "webp"@ {
        "image/webp"@
    } else if e == "svg"@ {
        "image/svg+xml"@
    } else if e == "ico"@ {
        "image/x-icon"@
    } else if e == "bmp"@ {
        "image/bmp"@
    } else if e == "avif"@ {
        "image/avif"@
    } else {
        "application/octet-stream"@
    }
}

/// The last position of a character lies within the text and holds it.
pub proof fn lemma_last_index_bounds(s: Seq<char>, c: char)
    ensures
        -1 <= last_index(s, c) < s.len(),
        last_index(s, c) >= 0 ==> s[last_index(s, c)] == c,
    decreases s.len(),
{
    if s.len() > 0 && s.last() != c {
        lemma_last_index_bounds(s.drop_last(), c);
    }
}

/// The position of the last `c` in `s`, or -1.
fn find_last(s: &str, c: char) -> (r: Option<usize>)
    ensures
        match r {
            Some(i) => i == last_index(s@, c),
            None => last_index(s@, c) == -1,
        },
{
    let n = s.unicode_len();
    let mut i: usize = n;
    assert(s@.take(n as int) =~= s@);
    while i > 0
        invariant
            n == s@.len(),
            i <= n,
            last_index(s@, c) == last_index(s@.take(i as int), c),
        decreases i,
    {
        assert(s@.take(i as int).drop_last() =~= s@.take(i as int - 1));
        assert(s@.take(i as int).last() == s@[i as int - 1]);
        if s.get_char(i - 1) == c {
            return Some(i - 1);
        }
        i = i - 1;
    }
    None
}

/// The extension of a path, if it has one.
pub fn path_extension(p: &str) -> (r: Option<String>)
    ensures
        match r {
            Some(e) => extension_of(p@) == Some(e@),
            None => extension_of(p@) is None,
        },
{
    assert(p@.take(p@.len() as int) =~= p@);
    let n = p.unicode_len();
    proof {
        lemma_last_index_bounds(p@, '/');
    }
    let start = match find_last(p, '/') {
        Some(i) => i + 1,
        None => 0,
    };
    let name = p.substring_char(start, n);
    assert(name@ =~= p@.skip(last_index(p@, '/') + 1));
    proof {
        lemma_last_index_bounds(name@, '.');
    }
    match find_last(name, '.') {
        Some(dot) => if dot == 0 {
            None
        } else {
            let m = name.unicode_len();
            Some(name.substring_char(dot + 1, m).to_owned())
        },
        None => None,
    }
}

/// Whether `d[start..start + pat.len()]` is `pat`.
pub(crate) fn bytes_at(d: &[u8], start: usize, pat: &Vec<u8>) -> (r: bool)
    requires
        start + pat@.len() <= d@.len(),
    ensures
        r == (d@.subrange(start as int, start + pat@.len()) == pat@),
{
    let dl = d.len();
    let mut i: usize = 0;
    while i < pat.len()
        invariant
            dl == d@.len(),
            start + pat@.len() <= d@.len(),
            0 <= i <= pat@.len(),
            forall|j: int| 0 <= j < i ==> d@[start + j] == #[trigger] pat@[j],
        decreases pat@.len() - i,
    {
        if d[start + i] != pat[i] {
            assert(d@.subrange(start as int, start + pat@.len())[i as int] != pat@[i as int]);
            return false;
        }
        i = i + 1;
    }
    assert(d@.subrange(start as int, start + pat@.len()) =~= pat@);
    true
}

/// What SHA-256 makes of a byte sequence.
pub uninterp spec fn sha256_of(data: Seq<u8>) -> Seq<u8>;

/// Relies on sha2::Sha256::digest: the SHA-256 digest of the bytes, whose output size is 32.
#[verifier::external_body]
fn sha256(data: &[u8]) -> (r: Vec<u8>)
    ensures
        r@ == sha256_of(data@),
        r@.len() == 32,
{
    <sha2::Sha256 as sha2::Digest>::digest(data).to_vec()
}

/// The lower-case hexadecimal digit of a value below sixteen.
pub open spec fn hex_lower(n: u8) -> char {
    if n < 10 {
        ((48 + n) as u8) as char
    } else {
        ((87 + n) as u8) as char
    }
}

/// Bytes written as two lower-case hexadecimal digits each.
pub open spec fn hex_of(bs: Seq<u8>) -> Seq<char>
    decreases bs.len(),
{
    if bs.len() == 0 {
        seq![]
    } else {
        hex_of(bs.drop_last()) + seq![hex_lower(bs.last() / 16), hex_lower(bs.last() % 16)]
    }
}

/// The decimal digits of a number.
pub open spec fn decimal_of(n: nat) -> Seq<char>
    decreases n,
{
    if n < 10 {
        seq![((48 + n) as u8) as char]
    } else {
        decimal_of(n / 10) + seq![((48 + n % 10) as u8) as char]
    }
}

/// The name an image gets in the assets directory: `{hash}.{ext}`, or `{hash}_{n}.{ext}` for
/// the `n`-th name tried after a collision.
pub open spec fn asset_name(hash: Seq<char>, n: nat, ext: Seq<char>) -> Seq<char> {
    if n == 0 {
        hash + seq!['.'] + ext
    } else {
        hash + seq!['_'] + decimal_of(n) + seq!['.'] + ext
    }
}

/// Appends the decimal digits of `n`.
fn push_decimal(out: &mut String, n: u32)
    ensures
        final(out)@ == old(out)@ + decimal_of(n as nat),
    decreases n,
{
    if n >= 10 {
        push_decimal(out, n / 10);
    }
    let d = (n % 10) as u8;
    push_char(out, (48 + d) as char);
    assert(out@ =~= old(out)@ + decimal_of(n as nat));
}

/// What to do with an upload at one candidate asset name.
pub enum ProbeStep {
    /// Nothing is stored under the name: write the image there.
    Write(String),
    /// The same content is stored under the name already: use it.
    Reuse(String),
    /// Other content is stored under the name: try the next one.
    Next(u32),
    /// No candidate is left.
    Exhausted,
}

/// Where uploaded images are kept: under the document root.
pub struct ImgService {
    doc_root_path: String,
}

impl ImgService {
    pub closed spec fn spec_root(&self) -> Seq<char> {
        self.doc_root_path@
    }

    /// A service over the settings' document root.
    pub fn new(settings: &Settings) -> (r: ImgService)
        ensures
            r.spec_root() == settings.doc_root_path@,
    {
        ImgService { doc_root_path: settings.doc_root_path.clone() }
    }

    /// The document root.
    pub fn doc_root_path(&self) -> (r: &String)
        ensures
            r@ == self.spec_root(),
    {
        &self.doc_root_path
    }

    /// The extension that the first bytes of an image announce, `png` when none does.
    pub fn infer_extension_from_magic_bytes(data: &[u8]) -> (r: &'static str)
        ensures
            r@ == magic_ext(data@),
    {
        proof {
            reveal_strlit("png");
            reveal_strlit("jpg");
            reveal_strlit("gif");
            reveal_strlit("webp");
            reveal_strlit("svg");
        }
        if data.len() < 12 {
            return "png";
        }
        assert(data@.take(8) =~= data@.subrange(0, 8));
        assert(data@.take(3) =~= data@.subrange(0, 3));
        assert(data@.take(6) =~= data@.subrange(0, 6));
        assert(data@.take(4) =~= data@.subrange(0, 4));
        if bytes_at(data, 0, &vec![0x89u8, 0x50, 0x4E, 0x47, 0x0D, 0x0A, 0x1A, 0x0A]) {
            return "png";
        }
        if bytes_at(data, 0, &vec![0xFFu8, 0xD8, 0xFF]) {
            return "jpg";
        }
        if bytes_at(data, 0, &vec![71u8, 73, 70, 56, 55, 97]) || bytes_at(
            data,
            0,
            &vec![71u8, 73, 70, 56, 57, 97],
        ) {
            return "gif";
        }
        if bytes_at(data, 0, &vec![82u8, 73, 70, 70]) && bytes_at(data, 8, &vec![87u8, 69, 66, 80]) {
            return "webp";
        }
        if data[0] == 60 && (bytes_at(data, 1, &vec![115u8, 118, 103]) || bytes_at(
            data,
            1,
            &vec![63u8, 120, 109, 108],
        )) {
            return "svg";
        }
        "png"
    }

    /// The extension to store an upload under: the client's, lower-cased, where it names a
    /// known image type (`jpeg` stored as `jpg`); else the one the bytes announce.
    pub fn infer_extension(file_name: &str, data: &[u8]) -> (r: String)
        ensures
            r@ == match extension_of(file_name@) {
                Some(e) => match known_ext(lower_of(e)) {
                    Some(k) => k,
                    None => magic_ext(data@),
                },
                None => magic_ext(data@),
            },
    {
        proof {
            reveal_strlit("jpg");
            reveal_strlit("jpeg");
            reveal_strlit("png");
            reveal_strlit("gif");
            reveal_strlit("webp");
            reveal_strlit("svg");
            reveal_strlit("ico");
            reveal_strlit("bmp");
            reveal_strlit("avif");
        }
        match path_extension(file_name) {
            Some(e) => {
                let l = lowercase(e.as_str());
                if l == "jpg".to_owned() || l == "jpeg".to_owned() {
                    return "jpg".to_owned();
                }
                if l == "png".to_owned() || l == "gif".to_owned() || l == "webp".to_owned() || l
                    == "svg".to_owned() || l == "ico".to_owned() || l == "bmp".to_owned() || l
                    == "avif".to_owned() {
                    return l;
                }
                Self::infer_extension_from_magic_bytes(data).to_owned()
            },
            None => Self::infer_extension_from_magic_bytes(data).to_owned(),
        }
    }

    /// The MIME type for a file path, by its lower-cased extension.
    pub fn infer_mime(path: &str) -> (r: String)
        ensures
            r@ == match extension_of(path@) {
                Some(e) => mime_of(lower_of(e)),
                None => mime_of(lower_of(seq![])),
            },
    {
        proof {
            reveal_strlit("png");
            reveal_strlit("jpg");
            reveal_strlit("jpeg");
            reveal_strlit("gif");
            reveal_strlit("webp");
            reveal_strlit("svg");
            reveal_strlit("ico");
            reveal_strlit("bmp");
            reveal_strlit("avif");
        }
        let e = match path_extension(path) {
            Some(e) => e,
            None => String::new(),
        };
        let l = lowercase(e.as_str());
        let r = if l == "png".to_owned() {
            "image/png"
        } else if l == "jpg".to_owned() || l == "jpeg".to_owned() {
            "image/jpeg"
        } else if l == "gif".to_owned() {
            "image/gif"
        } else if l == "webp".to_owned() {
            "image/webp"
        } else if l == "svg".to_owned() {
            "image/svg+xml"
        } else if l == "ico".to_owned() {
            "image/x-icon"
        } else if l == "bmp".to_owned() {
            "image/bmp"
        } else if l == "avif".to_owned() {
            "image/avif"
        } else {
            "application/octet-stream"
        };
        r.to_owned()
    }

    /// The first eight bytes of the data's SHA-256 digest, as sixteen lower-case hex digits.
    pub fn content_hash(data: &[u8]) -> (r: String)
        ensures
            r@ == hex_of(sha256_of(data@).take(8)),
    {
        let digest = sha256(data);
        let mut out = String::new();
        let mut i: usize = 0;
        while i < 8
            invariant
                digest@ == sha256_of(data@),
                digest@.len() == 32,
                0 <= i <= 8,
                out@ == hex_of(digest@.take(i as int)),
            decreases 8 - i,
        {
            let b = digest[i];
            let hi = b / 16;
            let lo = b % 16;
            let ch = if hi < 10 { (48 + hi) as char } else { (87 + hi) as char };
            let cl = if lo < 10 { (48 + lo) as char } else { (87 + lo) as char };
            push_char(&mut out, ch);
            push_char(&mut out, cl);
            assert(digest@.take(i as int + 1).drop_last() =~= digest@.take(i as int));
            assert(out@ =~= hex_of(digest@.take(i as int + 1)));
            i = i + 1;
        }
        out
    }

    /// The name an image gets in the assets directory on the `n`-th try.
    pub fn asset_name(hash: &str, n: u32, ext: &str) -> (r: String)
        ensures
            r@ == asset_name(hash@, n as nat, ext@),
    {
        let mut out = hash.to_owned();
        if n > 0 {
            push_char(&mut out, '_');
            push_decimal(&mut out, n);
        }
        push_char(&mut out, '.');
        out.append(ext);
        assert(out@ =~= asset_name(hash@, n as nat, ext@));
        out
    }

    /// The address under which a stored image is served: `/_assets/{name}`.
    pub fn asset_url(name: &str) -> (r: String)
        ensures
            r@ == "/_assets/"@ + name@,
    {
        let mut out = "/_assets/".to_owned();
        out.append(name);
        out
    }

    /// Decides at the `n`-th candidate name: write where the name is free, reuse it where it
    /// holds the same content, else move to the next candidate.
    pub fn resolve_hash_name_step(hash: &str, n: u32, ext: &str, exists: bool, same_content: bool) -> (r: ProbeStep)
        ensures
            match r {
                ProbeStep::Write(name) => !exists && name@ == asset_name(hash@, n as nat, ext@),
                ProbeStep::Reuse(name) => exists && same_content && name@ == asset_name(hash@, n as nat, ext@),
                ProbeStep::Next(m) => exists && !same_content && m == n + 1,
                ProbeStep::Exhausted => exists && !same_content && n == u32::MAX,
            },
    {
        if !exists {
            ProbeStep::Write(Self::asset_name(hash, n, ext))
        } else if same_content {
            ProbeStep::Reuse(Self::asset_name(hash, n, ext))
        } else if n == u32::MAX {
            ProbeStep::Exhausted
        } else {
            ProbeStep::Next(n + 1)
        }
    }
}

} // verus!
