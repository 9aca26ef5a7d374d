//! The session URL: a plan travels in the URL fragment as
//! `#vp1.<base64url(gzip(yaml))>`.
use base64::engine::general_purpose::URL_SAFE_NO_PAD;
use base64::Engine;
use flate2::read::GzDecoder;
use flate2::write::GzEncoder;
use flate2::Compression;
use std::io::{Read, Write};
use vstd::prelude::*;

use crate::text::{chars_of, is_white_space_spec, string_of, sub_chars, trim, trim_bounds, trim_end, trim_start, trim_start_char};

verus! {

/// The tag that starts every session payload.
pub const PREFIX: &'static str = "vp1.";

/// The characters of `PREFIX`.
pub open spec fn vp1() -> Seq<char> {
    seq!['v', 'p', '1', '.']
}

/// `#` followed by `PREFIX`: where a payload starts inside a URL.
pub open spec fn vp1_marker() -> Seq<char> {
    seq!['#', 'v', 'p', '1', '.']
}

/// A character of the URL-safe base64 alphabet (`A-Z a-z 0-9 - _`).
pub open spec fn is_base64url_char(c: char) -> bool {
    ||| 'A' <= c <= 'Z'
    ||| 'a' <= c <= 'z'
    ||| '0' <= c <= '9'
    ||| c == '-'
    ||| c == '_'
}

/// The length of unpadded base64 for `n` bytes.
pub open spec fn base64_len(n: nat) -> nat {
    4 * (n / 3) + if n % 3 == 0 {
        0
    } else {
        n % 3 + 1
    }
}

/// The compression level of the session payload (the best).
pub const GZIP_LEVEL: u32 = 9;

/// The bytes that `flate2`'s `GzEncoder` at `level` writes for the UTF-8 of `text`.
pub uninterp spec fn gzip_bytes(text: Seq<char>, level: u32) -> Seq<u8>;

/// What `flate2`'s `GzDecoder` followed by `read_to_string` yields for `data`;
/// `None` when the data is not gzip or does not hold UTF-8.
pub uninterp spec fn gunzip_text(data: Seq<u8>) -> Option<Seq<char>>;

/// The URL-safe base64 digit for the six-bit value `v`: `A-Z`, `a-z`,
/// `0-9`, then `-` and `_`.
pub open spec fn base64url_digit(v: int) -> char {
    if v < 26 {
        ('A' as int + v) as char
    } else if v < 52 {
        ('a' as int + (v - 26)) as char
    } else if v < 62 {
        ('0' as int + (v - 52)) as char
    } else if v == 62 {
        '-'
    } else {
        '_'
    }
}

/// The digits of one group of up to three bytes `a`, `b`, `c` (missing bytes
/// count as zero): four six-bit values, high bits first.
pub open spec fn base64url_group(a: int, b: int, c: int) -> Seq<char> {
    seq![
        base64url_digit(a / 4),
        base64url_digit((a % 4) * 16 + b / 16),
        base64url_digit((b % 16) * 4 + c / 64),
        base64url_digit(c % 64),
    ]
}

/// Unpadded URL-safe base64 of `data`: every three bytes become four digits;
/// a last group of one or two bytes becomes its first two or three digits.
pub open spec fn base64url_text(data: Seq<u8>) -> Seq<char>
    decreases data.len(),
{
    if data.len() == 0 {
        Seq::empty()
    } else {
        let b: int = if data.len() > 1 { data[1] as int } else { 0 };
        let c: int = if data.len() > 2 { data[2] as int } else { 0 };
        let digits = base64url_group(data[0] as int, b, c);
        if data.len() < 3 {
            digits.take(data.len() + 1int)
        } else {
            digits + base64url_text(data.subrange(3, data.len() as int))
        }
    }
}

/// The digits of a group are all in the URL-safe alphabet.
proof fn lemma_group_in_alphabet(a: int, b: int, c: int)
    requires
        0 <= a < 256,
        0 <= b < 256,
        0 <= c < 256,
    ensures
        forall|i: int| 0 <= i < 4 ==> is_base64url_char(#[trigger] base64url_group(a, b, c)[i]),
{
    assert(0 <= (a % 4) * 16 + b / 16 < 64);
    assert(0 <= (b % 16) * 4 + c / 64 < 64);
}

/// The base64 text has the unpadded length and only URL-safe digits.
pub proof fn lemma_base64url_text_shape(data: Seq<u8>)
    ensures
        base64url_text(data).len() == base64_len(data.len()),
        forall|i: int|
            0 <= i < base64url_text(data).len() ==> is_base64url_char(#[trigger] base64url_text(data)[i]),
    decreases data.len(),
{
    let t = base64url_text(data);
    if data.len() > 0 {
        let b: int = if data.len() > 1 { data[1] as int } else { 0 };
        let c: int = if data.len() > 2 { data[2] as int } else { 0 };
        let digits = base64url_group(data[0] as int, b, c);
        lemma_group_in_alphabet(data[0] as int, b, c);
        if data.len() < 3 {
            assert(t == digits.take(data.len() + 1int));
            assert forall|i: int| 0 <= i < t.len() implies is_base64url_char(#[trigger] t[i]) by {
                assert(t[i] == digits[i]);
            }
        } else {
            let rest = data.subrange(3, data.len() as int);
            lemma_base64url_text_shape(rest);
            assert(t == digits + base64url_text(rest));
            assert forall|i: int| 0 <= i < t.len() implies is_base64url_char(#[trigger] t[i]) by {
                if i >= 4 {
                    assert(t[i] == base64url_text(rest)[i - 4]);
                } else {
                    assert(t[i] == digits[i]);
                }
            }
            assert(base64_len(data.len()) == 4 + base64_len(rest.len()));
        }
    }
}

/// The bytes that `base64`'s `URL_SAFE_NO_PAD.decode` gives for `text`; `None` when it rejects it.
pub uninterp spec fn base64url_bytes(text: Seq<char>) -> Option<Seq<u8>>;

/// Gzip of the UTF-8 of `text` with `flate2::write::GzEncoder` at
/// `Compression::new(level)`, written into a `Vec`. Claimed: it succeeds
/// (writing into a `Vec` never fails, and deflate at a level of 0 to 9 on a
/// fresh stream reports no error); the bytes are `gzip_bytes(text, level)` (the
/// header is fixed: mtime 0, OS 255); `flate2::read::GzDecoder` reads `text`
/// back from them; they hold at least the 10-byte header and the 8-byte
/// trailer; a `Vec` holds at most `isize::MAX` bytes.
#[verifier::external_body]
fn gzip_compress(text: &str, level: u32) -> (r: Result<Vec<u8>, String>)
    requires
        level <= 9,
    ensures
        r is Ok,
        r matches Ok(v) ==> v@ == gzip_bytes(text@, level),
        r matches Ok(v) ==> gunzip_text(v@) == Some(text@) && 18 <= v@.len() <= isize::MAX,
{
    let mut encoder = GzEncoder::new(Vec::new(), Compression::new(level));
    if let Err(e) = encoder.write_all(text.as_bytes()) {
        return Err(e.to_string());
    }
    match encoder.finish() {
        Ok(v) => Ok(v),
        Err(e) => Err(e.to_string()),
    }
}

/// `flate2::read::GzDecoder` over `data`, then `Read::read_to_string`.
/// Claimed: the text is `gunzip_text(data)`, and an error comes exactly when
/// that is `None`; the error is passed on as its message.
#[verifier::external_body]
fn gunzip_to_string(data: &[u8]) -> (r: Result<String, String>)
    ensures
        match r {
            Ok(s) => gunzip_text(data@) == Some(s@),
            Err(_) => gunzip_text(data@) is None,
        },
{
    let mut decoder = GzDecoder::new(data);
    let mut text = String::new();
    match decoder.read_to_string(&mut text) {
        Ok(_) => Ok(text),
        Err(e) => Err(e.to_string()),
    }
}

/// `base64::engine::general_purpose::URL_SAFE_NO_PAD.encode(data)`. Claimed:
/// the text is `base64url_text(data)` (RFC 4648 base64 with the URL-safe
/// alphabet and no padding), and `URL_SAFE_NO_PAD.decode` gives `data` back.
/// `encode` panics when the output length overflows `usize`, which the bound
/// on `data` rules out.
#[verifier::external_body]
fn base64url_encode(data: &[u8]) -> (r: String)
    requires
        data@.len() <= isize::MAX,
    ensures
        r@ == base64url_text(data@),
        base64url_bytes(r@) == Some(data@),
{
    URL_SAFE_NO_PAD.encode(data)
}

/// `base64::engine::general_purpose::URL_SAFE_NO_PAD.decode` of the bytes of
/// `text`. Claimed: the bytes are `base64url_bytes(text)`, and an error comes
/// exactly when that is `None`; the error is passed on as its message.
#[verifier::external_body]
fn base64url_decode(text: &str) -> (r: Result<Vec<u8>, String>)
    ensures
        match r {
            Ok(v) => base64url_bytes(text@) == Some(v@),
            Err(_) => base64url_bytes(text@) is None,
        },
{
    match URL_SAFE_NO_PAD.decode(text.as_bytes()) {
        Ok(v) => Ok(v),
        Err(e) => Err(e.to_string()),
    }
}

/// `pat` stands in `s` at position `i`.
pub open spec fn matches_at(s: Seq<char>, pat: Seq<char>, i: int) -> bool {
    0 <= i && i + pat.len() <= s.len() && s.subrange(i, i + pat.len()) == pat
}

/// The last position below `k` where `pat` stands in `s`.
pub open spec fn last_match_below(s: Seq<char>, pat: Seq<char>, k: int) -> Option<int>
    decreases k,
{
    if k <= 0 {
        None
    } else if matches_at(s, pat, k - 1) {
        Some(k - 1)
    } else {
        last_match_below(s, pat, k - 1)
    }
}

/// `str::rfind`: the last position where `pat` stands in `s`.
pub open spec fn rfind(s: Seq<char>, pat: Seq<char>) -> Option<int> {
    last_match_below(s, pat, s.len() as int)
}

/// The payload part of a hash, URL fragment or whole URL: the base64 text
/// after the last `#vp1.` (or after `vp1.` when there is no `#`), or the
/// error message.
pub open spec fn payload_spec(hash: Seq<char>) -> Result<Seq<char>, Seq<char>> {
    let s = trim(hash);
    let s2 = match rfind(s, vp1_marker()) {
        Some(i) => s.subrange(i + 1, s.len() as int),
        None => match rfind(s, seq!['#']) {
            Some(i) => trim(s.subrange(i + 1, s.len() as int)),
            None => trim_start_char(trim(s), '#'),
        },
    };
    if vp1().is_prefix_of(s2) {
        let rest = s2.subrange(4, s2.len() as int);
        if rest.len() == 0 {
            Err("empty vp1 payload"@)
        } else {
            Ok(rest)
        }
    } else {
        Err("not a vp1 hash"@)
    }
}

/// The plan text that a hash stands for, when it can be read.
pub open spec fn decode_spec(hash: Seq<char>) -> Option<Seq<char>> {
    match payload_spec(hash) {
        Err(_) => None,
        Ok(p) => match base64url_bytes(p) {
            None => None,
            Some(gz) => gunzip_text(gz),
        },
    }
}

fn matches_at_exec(s: &Vec<char>, pat: &Vec<char>, i: usize) -> (r: bool)
    ensures
        r == matches_at(s@, pat@, i as int),
{
    if pat.len() > s.len() || i > s.len() - pat.len() {
        return false;
    }
    let mut j: usize = 0;
    while j < pat.len()
        invariant
            j <= pat.len(),
            i + pat.len() <= s.len(),
            forall|k: int| 0 <= k < j ==> s@[i + k] == pat@[k],
        decreases pat.len() - j,
    {
        if s[i + j] != pat[j] {
            assert(s@.subrange(i as int, i + pat.len())[j as int] != pat@[j as int]);
            return false;
        }
        j += 1;
    }
    assert(s@.subrange(i as int, i + pat.len()) == pat@);
    true
}

fn rfind_exec(s: &Vec<char>, pat: &Vec<char>) -> (r: Option<usize>)
    ensures
        r matches Some(i) ==> rfind(s@, pat@) == Some(i as int) && matches_at(s@, pat@, i as int),
        r is None ==> rfind(s@, pat@) is None,
{
    let mut k: usize = s.len();
    while k > 0
        invariant
            k <= s.len(),
            last_match_below(s@, pat@, s.len() as int) == last_match_below(s@, pat@, k as int),
        decreases k,
    {
        if matches_at_exec(s, pat, k - 1) {
            return Some(k - 1);
        }
        k -= 1;
    }
    None
}

fn trimmed(v: &Vec<char>) -> (out: Vec<char>)
    ensures
        out@ == trim(v@),
{
    let (lo, hi) = trim_bounds(v);
    sub_chars(v, lo, hi)
}

/// Accepts `vp1.…`, `#vp1.…`, or a full URL containing `#vp1.…`, and gives
/// back the base64 text after the tag.
pub fn payload_from(hash: &str) -> (r: Result<String, String>)
    ensures
        match r {
            Ok(p) => payload_spec(hash@) == Ok::<Seq<char>, Seq<char>>(p@),
            Err(m) => payload_spec(hash@) == Err::<Seq<char>, Seq<char>>(m@),
        },
{
    let all = chars_of(hash);
    let s = trimmed(&all);
    let marker: Vec<char> = vec!['#', 'v', 'p', '1', '.'];
    let hash_mark: Vec<char> = vec!['#'];
    assert(marker@ == vp1_marker());
    assert(hash_mark@ == seq!['#']);
    assert(marker@.len() == 5 && hash_mark@.len() == 1);
    let ghost spec_s2 = match rfind(s@, vp1_marker()) {
        Some(i) => s@.subrange(i + 1, s@.len() as int),
        None => match rfind(s@, seq!['#']) {
            Some(i) => trim(s@.subrange(i + 1, s@.len() as int)),
            None => trim_start_char(trim(s@), '#'),
        },
    };
    let found = rfind_exec(&s, &marker);
    let found_hash = rfind_exec(&s, &hash_mark);
    let s2: Vec<char> = if let Some(i) = found {
        assert(matches_at(s@, marker@, i as int));
        assert(i < s.len());
        assert(rfind(s@, vp1_marker()) == Some(i as int));
        sub_chars(&s, i + 1, s.len())
    } else if let Some(i) = found_hash {
        assert(matches_at(s@, hash_mark@, i as int));
        assert(i < s.len());
        assert(rfind(s@, vp1_marker()) is None);
        assert(rfind(s@, seq!['#']) == Some(i as int));
        let tail = sub_chars(&s, i + 1, s.len());
        trimmed(&tail)
    } else {
        let t = trimmed(&s);
        assert(t@.subrange(0, t.len() as int) == t@);
        let mut start: usize = 0;
        while start < t.len() && t[start] == '#'
            invariant
                start <= t.len(),
                trim_start_char(t@, '#') == trim_start_char(
                    t@.subrange(start as int, t.len() as int),
                    '#',
                ),
            decreases t.len() - start,
        {
            assert(t@.subrange(start as int, t.len() as int).drop_first() == t@.subrange(
                start + 1,
                t.len() as int,
            ));
            start += 1;
        }
        assert(rfind(s@, vp1_marker()) is None);
        assert(rfind(s@, seq!['#']) is None);
        let ghost rest = t@.subrange(start as int, t.len() as int);
        assert(trim_start_char(rest, '#') == rest);
        sub_chars(&t, start, t.len())
    };
    assert(s2@ == spec_s2);
    assert(s@ == trim(hash@));
    let has_tag = s2.len() >= 4 && s2[0] == 'v' && s2[1] == 'p' && s2[2] == '1' && s2[3] == '.';
    assert(has_tag == vp1().is_prefix_of(s2@)) by {
        if s2.len() >= 4 {
            assert(s2@.subrange(0, 4) == seq![s2@[0], s2@[1], s2@[2], s2@[3]]);
            if vp1().is_prefix_of(s2@) {
                assert(s2@.subrange(0, 4) == vp1());
                assert(s2@[0] == s2@.subrange(0, 4)[0]);
                assert(s2@[1] == s2@.subrange(0, 4)[1]);
                assert(s2@[2] == s2@.subrange(0, 4)[2]);
                assert(s2@[3] == s2@.subrange(0, 4)[3]);
            }
        }
    }
    if !has_tag {
        return Err(String::from_str("not a vp1 hash"));
    }
    if s2.len() == 4 {
        return Err(String::from_str("empty vp1 payload"));
    }
    Ok(string_of(&s2, 4, s2.len()))
}

/// gzip(yaml) at level 9 (`GZIP_LEVEL`), then base64url (no padding), prefixed `vp1.`.
/// The returned string does not include a leading `#`, and it decodes back to
/// `yaml`. It always succeeds: the output stays in memory.
pub fn encode(yaml: &str) -> (r: Result<String, String>)
    ensures
        r matches Ok(h) && h@ == vp1() + base64url_text(gzip_bytes(yaml@, GZIP_LEVEL)),
        r matches Ok(h) ==> h@.len() > 4 && forall|i: int|
            4 <= i < h@.len() ==> is_base64url_char(#[trigger] h@[i]),
        r matches Ok(h) ==> decode_spec(h@) == Some(yaml@),
{
    let gz = match gzip_compress(yaml, GZIP_LEVEL) {
        Ok(v) => v,
        Err(e) => return Err(e),
    };
    let body = base64url_encode(gz.as_slice());
    proof {
        lemma_base64url_text_shape(gz@);
    }
    let mut out = String::from_str(PREFIX);
    proof {
        reveal_strlit("vp1.");
        assert(out@ == vp1());
    }
    out.append(body.as_str());
    proof {
        assert forall|i: int| 4 <= i < out@.len() implies is_base64url_char(#[trigger] out@[i]) by {
            assert(out@[i] == body@[i - 4]);
        }
        lemma_payload_of_encoded(seq![], body@);
        assert(seq![] + vp1_marker() + body@ == vp1_marker() + body@);
    }
    Ok(out)
}

proof fn lemma_trim_start_concat(x: Seq<char>, y: Seq<char>)
    requires
        y.len() > 0,
        !is_white_space_spec(y[0]),
    ensures
        trim_start(x + y) == trim_start(x) + y,
    decreases x.len(),
{
    if x.len() == 0 {
        assert(x + y == y);
        assert(trim_start(x) == x);
    } else {
        assert((x + y).drop_first() == x.drop_first() + y);
        assert((x + y)[0] == x[0]);
        lemma_trim_start_concat(x.drop_first(), y);
    }
}

proof fn lemma_no_match_without_hash(s: Seq<char>, pat: Seq<char>, lo: int, k: int)
    requires
        pat.len() > 0,
        pat[0] == '#',
        0 <= lo <= k,
        forall|i: int| lo <= i < s.len() ==> s[i] != '#',
    ensures
        last_match_below(s, pat, k) == last_match_below(s, pat, lo),
    decreases k - lo,
{
    if k > lo {
        if matches_at(s, pat, k - 1) {
            assert(s.subrange(k - 1, k - 1 + pat.len())[0] == s[k - 1]);
        }
        lemma_no_match_without_hash(s, pat, lo, k - 1);
    }
}

/// A payload tagged `vp1.` at the start, or behind the last `#vp1.` of a
/// URL, is read back as the base64 text after the tag, whatever comes before.
pub proof fn lemma_payload_of_encoded(prefix: Seq<char>, body: Seq<char>)
    requires
        body.len() > 0,
        forall|i: int| 0 <= i < body.len() ==> is_base64url_char(#[trigger] body[i]),
    ensures
        payload_spec(prefix + vp1_marker() + body) == Ok::<Seq<char>, Seq<char>>(body),
        payload_spec(vp1() + body) == Ok::<Seq<char>, Seq<char>>(body),
{
    // The `#vp1.` form.
    let y = vp1_marker() + body;
    let s0 = prefix + vp1_marker() + body;
    assert(s0 == prefix + y);
    lemma_trim_start_concat(prefix, y);
    let q = trim_start(prefix);
    let s = q + y;
    assert(trim_start(s0) == s);
    assert(s.last() == body.last());
    assert(trim_end(s) == s);
    assert(trim(s0) == s);
    assert forall|i: int| q.len() + 1 <= i < s.len() implies s[i] != '#' by {
        if i < q.len() + 5 {
            assert(s[i] == vp1_marker()[i - q.len()]);
        } else {
            assert(s[i] == body[i - q.len() - 5]);
        }
    }
    lemma_no_match_without_hash(s, vp1_marker(), q.len() as int + 1, s.len() as int);
    assert(s.subrange(q.len() as int, q.len() as int + 5) == vp1_marker());
    assert(matches_at(s, vp1_marker(), q.len() as int));
    assert(rfind(s, vp1_marker()) == Some(q.len() as int));
    let s2 = s.subrange(q.len() as int + 1, s.len() as int);
    assert(s2 == vp1() + body);
    assert(vp1().is_prefix_of(s2)) by {
        assert(s2.subrange(0, 4) == vp1());
    }
    assert(s2.subrange(4, s2.len() as int) == body);
    // The bare `vp1.` form.
    let t = vp1() + body;
    assert(trim_start(t) == t);
    assert(t.last() == body.last());
    assert(trim_end(t) == t);
    assert(trim(t) == t);
    assert forall|i: int| 0 <= i < t.len() implies t[i] != '#' by {
        if i >= 4 {
            assert(t[i] == body[i - 4]);
        }
    }
    lemma_no_match_without_hash(t, vp1_marker(), 0, t.len() as int);
    lemma_no_match_without_hash(t, seq!['#'], 0, t.len() as int);
    assert(trim_start_char(t, '#') == t);
    assert(vp1().is_prefix_of(t)) by {
        assert(t.subrange(0, 4) == vp1());
    }
    assert(t.subrange(4, t.len() as int) == body);
}

/// Accepts `vp1.…`, `#vp1.…`, or a full URL containing `#vp1.…`.
pub fn decode(hash: &str) -> (r: Result<String, String>)
    ensures
        match r {
            Ok(y) => decode_spec(hash@) == Some(y@),
            Err(m) => decode_spec(hash@) is None && (payload_spec(hash@) is Err ==> payload_spec(
                hash@,
            ) == Err::<Seq<char>, Seq<char>>(m@)),
        },
{
    let payload = match payload_from(hash) {
        Ok(p) => p,
        Err(m) => return Err(m),
    };
    let gz = match base64url_decode(payload.as_str()) {
        Ok(v) => v,
        Err(e) => return Err(e),
    };
    gunzip_to_string(gz.as_slice())
}


/// `s` without one leading `#` (`str::strip_prefix('#')`, or `s` when it does not start so).
pub open spec fn strip_one_hash(s: Seq<char>) -> Seq<char> {
    if s.len() > 0 && s[0] == '#' {
        s.drop_first()
    } else {
        s
    }
}

/// The hash holds nothing but white space and at most one `#` before it.
pub open spec fn hash_is_blank(hash: Seq<char>) -> bool {
    trim(strip_one_hash(trim(hash))).len() == 0
}

/// Reads the plan text that a location hash carries: `None` for a blank
/// hash, else what `decode` gives for the trimmed hash.
pub fn yaml_from_hash_str(hash: &str) -> (r: Result<Option<String>, String>)
    ensures
        hash_is_blank(hash@) ==> r == Ok::<Option<String>, String>(None),
        !hash_is_blank(hash@) ==> match r {
            Ok(Some(y)) => decode_spec(trim(hash@)) == Some(y@),
            Ok(None) => false,
            Err(_) => decode_spec(trim(hash@)) is None,
        },
{
    let all = chars_of(hash);
    let h = trimmed(&all);
    let start: usize = if h.len() > 0 && h[0] == '#' {
        1
    } else {
        0
    };
    let rest = sub_chars(&h, start, h.len());
    assert(rest@ == strip_one_hash(h@));
    let rest_trimmed = trimmed(&rest);
    if rest_trimmed.len() == 0 {
        return Ok(None);
    }
    let text = string_of(&h, 0, h.len());
    assert(h@.subrange(0, h.len() as int) == h@);
    match decode(text.as_str()) {
        Ok(y) => Ok(Some(y)),
        Err(e) => Err(e),
    }
}

} // verus!
