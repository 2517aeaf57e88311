//! Conversion between a path given as segments and its percent-encoded key.
use vstd::prelude::*;
use vstd::utf8::*;
use vstd::string::*;

verus! {

broadcast use vstd::seq::group_seq_axioms;

/// Bytes left as they are by the encoding: `A-Z a-z 0-9 - . _ ~`.
pub open spec fn is_unreserved(b: u8) -> bool {
    (65 <= b <= 90) || (97 <= b <= 122) || (48 <= b <= 57) || b == 45 || b == 46 || b == 95
        || b == 126
}

/// The upper-case hexadecimal digit of a value below sixteen, as an ASCII byte.
pub open spec fn hex_digit(n: u8) -> u8 {
    if n < 10 {
        (48 + n) as u8
    } else {
        (55 + n) as u8
    }
}

/// `%` followed by the two upper-case hexadecimal digits of `b`.
pub open spec fn escape_of(b: u8) -> Seq<u8> {
    seq![37u8, hex_digit(b / 16), hex_digit(b % 16)]
}

/// What one input byte becomes in the encoded key.
pub open spec fn encode_unit(b: u8) -> Seq<u8> {
    if is_unreserved(b) {
        seq![b]
    } else {
        escape_of(b)
    }
}

/// Percent-encoding of a byte sequence, byte by byte.
pub open spec fn encode_bytes(bs: Seq<u8>) -> Seq<u8>
    decreases bs.len(),
{
    if bs.len() == 0 {
        seq![]
    } else {
        encode_unit(bs[0]) + encode_bytes(bs.drop_first())
    }
}

/// ASCII bytes read as characters.
pub open spec fn ascii_chars(bs: Seq<u8>) -> Seq<char> {
    bs.map_values(|b: u8| b as char)
}

/// The segments joined with a separator.
pub open spec fn join_with(segs: Seq<Seq<char>>, sep: char) -> Seq<char>
    decreases segs.len(),
{
    if segs.len() == 0 {
        seq![]
    } else if segs.len() == 1 {
        segs[0]
    } else {
        join_with(segs.drop_last(), sep) + seq![sep] + segs.last()
    }
}

/// The segments joined with `/`.
pub open spec fn join_segments(segs: Seq<Seq<char>>) -> Seq<char> {
    join_with(segs, '/')
}

/// The encoded key of a path: its segments joined with `/`, then percent-encoded.
pub open spec fn key_of(segs: Seq<Seq<char>>) -> Seq<char> {
    ascii_chars(encode_bytes(encode_utf8(join_segments(segs))))
}

/// The views of a vector of strings.
pub open spec fn segs_view(v: Seq<String>) -> Seq<Seq<char>> {
    v.map_values(|s: String| s@)
}

/// Relies on percent_encoding::percent_encode_byte: `%` and two upper-case hex digits.
#[verifier::external_body]
fn escape_byte(b: u8) -> (r: &'static str)
    ensures
        r@ == ascii_chars(escape_of(b)),
{
    percent_encoding::percent_encode_byte(b)
}

/// Relies on String::push: appends one character.
#[verifier::external_body]
pub(crate) fn push_char(s: &mut String, c: char)
    ensures
        final(s)@ == old(s)@.push(c),
{
    s.push(c)
}

/// Encoding distributes over concatenation.
pub proof fn lemma_encode_bytes_append(a: Seq<u8>, b: Seq<u8>)
    ensures
        encode_bytes(a + b) == encode_bytes(a) + encode_bytes(b),
    decreases a.len(),
{
    if a.len() == 0 {
        assert(a + b =~= b);
    } else {
        assert((a + b).drop_first() =~= a.drop_first() + b);
        lemma_encode_bytes_append(a.drop_first(), b);
        assert(encode_bytes(a) + encode_bytes(b) =~= encode_unit(a[0]) + (encode_bytes(
            a.drop_first(),
        ) + encode_bytes(b)));
    }
}

/// UTF-8 encoding distributes over concatenation.
pub proof fn lemma_encode_utf8_append(a: Seq<char>, b: Seq<char>)
    ensures
        encode_utf8(a + b) == encode_utf8(a) + encode_utf8(b),
    decreases a.len(),
{
    if a.len() == 0 {
        assert(a + b =~= b);
    } else {
        assert((a + b).drop_first() =~= a.drop_first() + b);
        lemma_encode_utf8_append(a.drop_first(), b);
        assert(encode_utf8(a) + encode_utf8(b) =~= encode_scalar(a[0] as u32) + (encode_utf8(
            a.drop_first(),
        ) + encode_utf8(b)));
    }
}

/// The encoding of one byte.
proof fn lemma_encode_bytes_single(b: u8)
    ensures
        encode_bytes(seq![b]) == encode_unit(b),
{
    assert(seq![b].drop_first() =~= Seq::<u8>::empty());
    assert(encode_bytes(Seq::<u8>::empty()) =~= Seq::<u8>::empty());
    assert(encode_unit(b) + Seq::<u8>::empty() =~= encode_unit(b));
}

/// `/` is the single byte 47 in UTF-8.
proof fn lemma_encode_utf8_slash()
    ensures
        encode_utf8(seq!['/']) == seq![47u8],
{
    assert(seq!['/'].drop_first() =~= Seq::<char>::empty());
    assert(('/' as u32) == 47);
    assert((47u32 & 0x7F) == 47) by (bit_vector);
    assert(encode_scalar(47) =~= seq![47u8]);
    assert(seq!['/'][0] == '/');
    assert(encode_utf8(Seq::<char>::empty()) =~= Seq::<u8>::empty());
    assert(encode_utf8(seq!['/']) == encode_scalar(47) + encode_utf8(Seq::<char>::empty()));
    assert(encode_utf8(seq!['/']) =~= seq![47u8]);
}

/// Appends the encoding of `bytes` to `out`.
fn encode_into(out: &mut String, bytes: &[u8])
    ensures
        final(out)@ == old(out)@ + ascii_chars(encode_bytes(bytes@)),
{
    let mut i: usize = 0;
    while i < bytes.len()
        invariant
            0 <= i <= bytes@.len(),
            out@ == old(out)@ + ascii_chars(encode_bytes(bytes@.take(i as int))),
        decreases bytes@.len() - i,
    {
        let b = bytes[i];
        proof {
            lemma_encode_bytes_append(bytes@.take(i as int), seq![b]);
            assert(bytes@.take(i as int + 1) =~= bytes@.take(i as int) + seq![b]);
            lemma_encode_bytes_single(b);
        }
        if (b >= 65 && b <= 90) || (b >= 97 && b <= 122) || (b >= 48 && b <= 57) || b == 45
            || b == 46 || b == 95 || b == 126 {
            push_char(out, b as char);
        } else {
            out.append(escape_byte(b));
        }
        assert(out@ =~= old(out)@ + ascii_chars(encode_bytes(bytes@.take(i as int + 1))));
        i = i + 1;
    }
    assert(bytes@.take(bytes@.len() as int) =~= bytes@);
}

/// Joins the segments with `/` and percent-encodes every byte outside `A-Z a-z 0-9 - . _ ~`.
pub fn normalize_path(path_arr: &Vec<String>) -> (r: String)
    ensures
        r@ == key_of(segs_view(path_arr@)),
{
    let mut out = String::new();
    let mut k: usize = 0;
    while k < path_arr.len()
        invariant
            0 <= k <= path_arr@.len(),
            out@ == key_of(segs_view(path_arr@.take(k as int))),
        decreases path_arr@.len() - k,
    {
        let ghost prev = segs_view(path_arr@.take(k as int));
        let ghost next = segs_view(path_arr@.take(k as int + 1));
        assert(next.drop_last() =~= prev);
        assert(next.last() == path_arr@[k as int]@);
        if k > 0 {
            proof {
                lemma_encode_utf8_slash();
                lemma_encode_utf8_append(join_segments(prev), seq!['/']);
                lemma_encode_bytes_append(encode_utf8(join_segments(prev)), seq![47u8]);
                lemma_encode_bytes_single(47u8);
            }
            out.append(escape_byte(47u8));
            assert(out@ =~= ascii_chars(encode_bytes(encode_utf8(join_segments(prev) + seq!['/']))));
        }
        let seg: &str = path_arr[k].as_str();
        encode_into(&mut out, seg.as_bytes());
        proof {
            let pre = if k == 0 { Seq::<char>::empty() } else { join_segments(prev) + seq!['/'] };
            assert(join_segments(next) =~= pre + seg@);
            lemma_encode_utf8_append(pre, seg@);
            lemma_encode_bytes_append(encode_utf8(pre), encode_utf8(seg@));
        }
        assert(out@ =~= key_of(next));
        k = k + 1;
    }
    assert(path_arr@.take(path_arr@.len() as int) =~= path_arr@);
    out
}


/// A byte that `%` escapes may use as a hexadecimal digit, in either case.
pub open spec fn is_hex_byte(b: u8) -> bool {
    (48 <= b <= 57) || (65 <= b <= 70) || (97 <= b <= 102)
}

/// The value of a hexadecimal digit byte.
pub open spec fn hex_value(b: u8) -> u8 {
    if b <= 57 {
        (b - 48) as u8
    } else if b <= 70 {
        (b - 55) as u8
    } else {
        (b - 87) as u8
    }
}

/// Percent-decoding: each `%` followed by two hexadecimal digits becomes the byte they spell;
/// every other byte stays.
pub open spec fn percent_decode_bytes(bs: Seq<u8>) -> Seq<u8>
    decreases bs.len(),
{
    if bs.len() == 0 {
        seq![]
    } else if bs[0] == 37 && bs.len() >= 3 && is_hex_byte(bs[1]) && is_hex_byte(bs[2]) {
        seq![(hex_value(bs[1]) * 16 + hex_value(bs[2])) as u8] + percent_decode_bytes(bs.skip(3))
    } else {
        seq![bs[0]] + percent_decode_bytes(bs.drop_first())
    }
}

/// The text that the decoded bytes read as, where each invalid UTF-8 sequence is read as
/// U+FFFD.
pub uninterp spec fn lossy_text(bs: Seq<u8>) -> Seq<char>;

/// The segments of a text split at each `/`; an empty text gives one empty segment.
pub open spec fn split_slash(t: Seq<char>) -> Seq<Seq<char>>
    decreases t.len(),
{
    if t.len() == 0 {
        seq![seq![]]
    } else {
        let s = split_slash(t.drop_last());
        if t.last() == '/' {
            s.push(seq![])
        } else {
            s.update(s.len() - 1, s.last().push(t.last()))
        }
    }
}

/// Bytes read as text: their UTF-8 reading where they are valid UTF-8.
pub open spec fn utf8_text(bs: Seq<u8>) -> Seq<char> {
    if valid_utf8(bs) {
        decode_utf8(bs)
    } else {
        lossy_text(bs)
    }
}

/// The text of a key once percent-decoded.
pub open spec fn decoded_text(key: Seq<char>) -> Seq<char> {
    utf8_text(percent_decode_bytes(encode_utf8(key)))
}

/// The path that a key decodes to.
pub open spec fn path_of_key(key: Seq<char>) -> Seq<Seq<char>> {
    split_slash(decoded_text(key))
}

/// Relies on percent_encoding::percent_decode_str and its decode_utf8_lossy: the decoded bytes
/// read as UTF-8, unchanged where they are valid UTF-8.
#[verifier::external_body]
fn percent_decode_text(s: &str) -> (r: String)
    ensures
        r@ == (if valid_utf8(percent_decode_bytes(encode_utf8(s@))) {
            decode_utf8(percent_decode_bytes(encode_utf8(s@)))
        } else {
            lossy_text(percent_decode_bytes(encode_utf8(s@)))
        }),
{
    percent_encoding::percent_decode_str(s).decode_utf8_lossy().into_owned()
}

/// A split yields at least one segment.
pub proof fn lemma_split_slash_nonempty(t: Seq<char>)
    ensures
        split_slash(t).len() >= 1,
    decreases t.len(),
{
    if t.len() > 0 {
        lemma_split_slash_nonempty(t.drop_last());
    }
}

/// Splits a decoded text at each `/`.
fn split_at_slash(text: &String) -> (r: Vec<String>)
    ensures
        segs_view(r@) == split_slash(text@),
{
    let n = text.as_str().unicode_len();
    let mut parts: Vec<String> = Vec::new();
    let mut cur = String::new();
    let mut i: usize = 0;
    while i < n
        invariant
            n == text@.len(),
            0 <= i <= n,
            segs_view(parts@).push(cur@) == split_slash(text@.take(i as int)),
        decreases n - i,
    {
        let c = text.as_str().get_char(i);
        let ghost t = text@.take(i as int + 1);
        assert(t.drop_last() =~= text@.take(i as int));
        assert(t.last() == c);
        if c == '/' {
            let done = cur;
            parts.push(done);
            cur = String::new();
            assert(segs_view(parts@).push(cur@) =~= split_slash(t));
        } else {
            push_char(&mut cur, c);
            assert(segs_view(parts@).push(cur@) =~= split_slash(t));
        }
        i = i + 1;
    }
    assert(text@.take(n as int) =~= text@);
    parts.push(cur);
    assert(segs_view(parts@) =~= split_slash(text@));
    parts
}

/// Percent-decodes the key, then splits it at each `/`. An empty key gives one empty segment.
pub fn denormalize_path(path_str: &str) -> (r: Vec<String>)
    ensures
        segs_view(r@) == path_of_key(path_str@),
        r@.len() >= 1,
{
    let text = percent_decode_text(path_str);
    let r = split_at_slash(&text);
    proof {
        lemma_split_slash_nonempty(text@);
    }
    r
}

/// Hexadecimal digits read back as their value.
proof fn lemma_hex_digit(n: u8)
    requires
        n < 16,
    ensures
        is_hex_byte(hex_digit(n)),
        hex_value(hex_digit(n)) == n,
        hex_digit(n) < 128,
{
}

/// Every byte of an encoding is ASCII, and decoding it gives back the input.
pub proof fn lemma_decode_encode_bytes(bs: Seq<u8>)
    ensures
        percent_decode_bytes(encode_bytes(bs)) == bs,
        forall|i: int| 0 <= i < encode_bytes(bs).len() ==> #[trigger] encode_bytes(bs)[i] < 128,
    decreases bs.len(),
{
    if bs.len() > 0 {
        let b = bs[0];
        let rest = encode_bytes(bs.drop_first());
        lemma_decode_encode_bytes(bs.drop_first());
        let e = encode_bytes(bs);
        assert(e == encode_unit(b) + rest);
        if is_unreserved(b) {
            assert(e.drop_first() =~= rest);
            assert(percent_decode_bytes(e) == seq![b] + percent_decode_bytes(rest));
        } else {
            lemma_hex_digit(b / 16);
            lemma_hex_digit(b % 16);
            assert(e.skip(3) =~= rest);
            assert(e[0] == 37 && e[1] == hex_digit(b / 16) && e[2] == hex_digit(b % 16));
            assert((hex_value(e[1]) * 16 + hex_value(e[2])) as u8 == b);
            assert(percent_decode_bytes(e) == seq![b] + percent_decode_bytes(rest));
        }
        assert(seq![b] + bs.drop_first() =~= bs);
        assert forall|i: int| 0 <= i < e.len() implies #[trigger] e[i] < 128 by {
            if i >= encode_unit(b).len() {
                assert(e[i] == rest[i - encode_unit(b).len()]);
            } else if !is_unreserved(b) {
                lemma_hex_digit(b / 16);
                lemma_hex_digit(b % 16);
            }
        }
    }
}

/// The UTF-8 encoding of ASCII bytes read as characters is those bytes.
pub proof fn lemma_ascii_round_trip(bs: Seq<u8>)
    requires
        forall|i: int| 0 <= i < bs.len() ==> #[trigger] bs[i] < 128,
    ensures
        encode_utf8(ascii_chars(bs)) == bs,
{
    let cs = ascii_chars(bs);
    assert(is_ascii_chars(cs)) by {
        assert forall|i: int| 0 <= i < cs.len() implies '\0' <= #[trigger] cs[i] <= '\u{7f}' by {
            assert(cs[i] == bs[i] as char);
        }
    }
    is_ascii_chars_encode_utf8(cs);
    assert forall|i: int| 0 <= i < bs.len() implies encode_utf8(cs)[i] == bs[i] by {
        assert(cs[i] == bs[i] as char);
    }
    assert(encode_utf8(cs) =~= bs);
}

/// No `/` in a text.
pub open spec fn has_no_slash(t: Seq<char>) -> bool {
    forall|i: int| 0 <= i < t.len() ==> #[trigger] t[i] != '/'
}

/// A text without `/` splits into itself.
proof fn lemma_split_no_slash(y: Seq<char>)
    requires
        has_no_slash(y),
    ensures
        split_slash(y) == seq![y],
    decreases y.len(),
{
    if y.len() > 0 {
        lemma_split_no_slash(y.drop_last());
        assert(y.drop_last().push(y.last()) =~= y);
        assert(split_slash(y) =~= seq![y]);
    } else {
        assert(y =~= Seq::<char>::empty());
    }
}

/// Splitting `x/y`, with no `/` in `y`, adds `y` to the split of `x`.
proof fn lemma_split_after_slash(x: Seq<char>, y: Seq<char>)
    requires
        has_no_slash(y),
    ensures
        split_slash(x + seq!['/'] + y) == split_slash(x).push(y),
    decreases y.len(),
{
    let t = x + seq!['/'] + y;
    if y.len() == 0 {
        assert(t.drop_last() =~= x);
        assert(y =~= Seq::<char>::empty());
    } else {
        lemma_split_after_slash(x, y.drop_last());
        assert(t.drop_last() =~= x + seq!['/'] + y.drop_last());
        assert(y.drop_last().push(y.last()) =~= y);
        assert(split_slash(t) =~= split_slash(x).push(y));
    }
}

/// Splitting joined segments that hold no `/` gives them back.
proof fn lemma_split_join(segs: Seq<Seq<char>>)
    requires
        segs.len() >= 1,
        forall|i: int| 0 <= i < segs.len() ==> has_no_slash(#[trigger] segs[i]),
    ensures
        split_slash(join_segments(segs)) == segs,
    decreases segs.len(),
{
    if segs.len() == 1 {
        lemma_split_no_slash(segs[0]);
        assert(segs =~= seq![segs[0]]);
    } else {
        let init = segs.drop_last();
        assert forall|i: int| 0 <= i < init.len() implies has_no_slash(#[trigger] init[i]) by {
            assert(init[i] == segs[i]);
        }
        lemma_split_join(init);
        assert(has_no_slash(segs[segs.len() - 1]));
        lemma_split_after_slash(join_segments(init), segs.last());
        assert(init.push(segs.last()) =~= segs);
    }
}

/// Decoding the key of a path gives back the path, for every non-empty path whose segments
/// hold no `/`.
pub proof fn lemma_round_trip(segs: Seq<Seq<char>>)
    requires
        segs.len() >= 1,
        forall|i: int| 0 <= i < segs.len() ==> has_no_slash(#[trigger] segs[i]),
    ensures
        path_of_key(key_of(segs)) == segs,
{
    let u = encode_utf8(join_segments(segs));
    lemma_decode_encode_bytes(u);
    lemma_ascii_round_trip(encode_bytes(u));
    encode_utf8_valid_utf8(join_segments(segs));
    encode_utf8_decode_utf8(join_segments(segs));
    lemma_split_join(segs);
}

/// No segment of a split holds `/`.
pub proof fn lemma_split_segments(t: Seq<char>)
    ensures
        forall|i: int| 0 <= i < split_slash(t).len() ==> has_no_slash(#[trigger] split_slash(t)[i]),
    decreases t.len(),
{
    if t.len() > 0 {
        lemma_split_segments(t.drop_last());
        lemma_split_slash_nonempty(t.drop_last());
        let s = split_slash(t.drop_last());
        if t.last() != '/' {
            assert forall|i: int| 0 <= i < split_slash(t).len() implies has_no_slash(
                #[trigger] split_slash(t)[i],
            ) by {
                if i == s.len() - 1 {
                    let seg = s.last().push(t.last());
                    assert forall|j: int| 0 <= j < seg.len() implies #[trigger] seg[j] != '/' by {
                        if j < s.last().len() {
                            assert(has_no_slash(s[s.len() - 1]));
                        }
                    }
                }
            }
        } else {
            assert forall|i: int| 0 <= i < split_slash(t).len() implies has_no_slash(
                #[trigger] split_slash(t)[i],
            ) by {
                if i < s.len() {
                    assert(split_slash(t)[i] == s[i]);
                }
            }
        }
    }
}

/// A character left as it is by the encoding.
pub open spec fn unreserved_char(c: char) -> bool {
    ('A' <= c <= 'Z') || ('a' <= c <= 'z') || ('0' <= c <= '9') || c == '-' || c == '.' || c == '_'
        || c == '~'
}

/// A hexadecimal digit, in either case.
pub open spec fn hex_char(c: char) -> bool {
    ('0' <= c <= '9') || ('A' <= c <= 'F') || ('a' <= c <= 'f')
}

/// A text that is already an encoded key: unreserved characters, and `%` each followed by
/// two hexadecimal digits.
pub open spec fn is_key_text(t: Seq<char>) -> bool
    decreases t.len(),
{
    if t.len() == 0 {
        true
    } else if t[0] == '%' {
        t.len() >= 3 && hex_char(t[1]) && hex_char(t[2]) && is_key_text(t.skip(3))
    } else {
        unreserved_char(t[0]) && is_key_text(t.drop_first())
    }
}

/// A path string as a key: unchanged where it is already an encoded key, else encoded as a
/// whole (so a `/` in it becomes `%2F`).
pub open spec fn encoded_key(t: Seq<char>) -> Seq<char> {
    if is_key_text(t) {
        t
    } else {
        ascii_chars(encode_bytes(encode_utf8(t)))
    }
}

/// Whether a text is already an encoded key.
fn is_key_string(t: &str) -> (r: bool)
    ensures
        r == is_key_text(t@),
{
    let n = t.unicode_len();
    let mut i: usize = 0;
    assert(t@.skip(0) =~= t@);
    while i < n
        invariant
            n == t@.len(),
            0 <= i <= n,
            is_key_text(t@) == is_key_text(t@.skip(i as int)),
        decreases n - i,
    {
        let ghost rest = t@.skip(i as int);
        let c = t.get_char(i);
        assert(rest[0] == c);
        if c == '%' {
            if n - i < 3 {
                return false;
            }
            let h = t.get_char(i + 1);
            let l = t.get_char(i + 2);
            assert(rest[1] == h && rest[2] == l);
            let ok = (('0' <= h && h <= '9') || ('A' <= h && h <= 'F') || ('a' <= h && h <= 'f'))
                && (('0' <= l && l <= '9') || ('A' <= l && l <= 'F') || ('a' <= l && l <= 'f'));
            if !ok {
                return false;
            }
            assert(rest.skip(3) =~= t@.skip(i as int + 3));
            i = i + 3;
        } else {
            let ok = ('A' <= c && c <= 'Z') || ('a' <= c && c <= 'z') || ('0' <= c && c <= '9') || c
                == '-' || c == '.' || c == '_' || c == '~';
            if !ok {
                return false;
            }
            assert(rest.drop_first() =~= t@.skip(i as int + 1));
            i = i + 1;
        }
    }
    assert(t@.skip(n as int).len() == 0);
    true
}

/// Encodes a path string unless it already is an encoded key, so that a key is never
/// encoded twice.
pub fn encode_path_string(path: &str) -> (r: String)
    ensures
        r@ == encoded_key(path@),
{
    if is_key_string(path) {
        return path.to_owned();
    }
    let mut v: Vec<String> = Vec::new();
    v.push(path.to_owned());
    assert(segs_view(v@) =~= seq![path@]);
    normalize_path(&v)
}

/// The characters of an encoding form an encoded key.
pub proof fn lemma_encoding_is_key_text(bs: Seq<u8>)
    ensures
        is_key_text(ascii_chars(encode_bytes(bs))),
    decreases bs.len(),
{
    if bs.len() > 0 {
        let b = bs[0];
        let rest = encode_bytes(bs.drop_first());
        lemma_encoding_is_key_text(bs.drop_first());
        let t = ascii_chars(encode_bytes(bs));
        assert(encode_bytes(bs) == encode_unit(b) + rest);
        if is_unreserved(b) {
            assert(t.drop_first() =~= ascii_chars(rest));
            assert(t[0] == b as char);
        } else {
            lemma_hex_digit(b / 16);
            lemma_hex_digit(b % 16);
            assert(t.skip(3) =~= ascii_chars(rest));
            assert(t[0] == '%');
            assert(t[1] == hex_digit(b / 16) as char);
            assert(t[2] == hex_digit(b % 16) as char);
        }
    }
}

/// Encoding a path string twice gives what encoding it once gives.
pub proof fn lemma_encode_path_string_idempotent(t: Seq<char>)
    ensures
        encoded_key(encoded_key(t)) == encoded_key(t),
{
    if !is_key_text(t) {
        lemma_encoding_is_key_text(encode_utf8(t));
    }
}

} // verus!
