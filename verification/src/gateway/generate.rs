//! Text generation relayed from the model router: the default providers and
//! the reading of its event stream into text pieces.
use vstd::prelude::*;
use crate::types::str_is;

verus! {

/// Tokens asked for when the request names no limit.
pub const DEFAULT_MAX_TOKENS: i32 = 2048;

/// The providers a streamed generation asks when the request names none.
pub fn default_stream_providers() -> (v: Vec<String>)
    ensures
        v@.map_values(|s: String| s@) == seq!["openai"@, "anthropic"@],
{
    let mut v: Vec<String> = Vec::new();
    v.push(String::from_str("openai"));
    v.push(String::from_str("anthropic"));
    assert(v@.map_values(|s: String| s@) =~= seq!["openai"@, "anthropic"@]);
    v
}

/// The providers a side-by-side comparison asks when the request names none.
pub fn default_compare_providers() -> (v: Vec<String>)
    ensures
        v@.map_values(|s: String| s@) == seq!["openai"@, "anthropic"@, "local"@],
{
    let mut v: Vec<String> = Vec::new();
    v.push(String::from_str("openai"));
    v.push(String::from_str("anthropic"));
    v.push(String::from_str("local"));
    assert(v@.map_values(|s: String| s@) =~= seq!["openai"@, "anthropic"@, "local"@]);
    v
}

/// The router endpoint of streamed generation under `base`.
pub fn stream_endpoint(base: &str) -> (u: String)
    ensures
        u@ == base@ + "/generate/stream"@,
{
    let mut u = String::from_str(base);
    u.append("/generate/stream");
    u
}

/// The router endpoint of side-by-side comparison under `base`.
pub fn compare_endpoint(base: &str) -> (u: String)
    ensures
        u@ == base@ + "/generate/compare"@,
{
    let mut u = String::from_str(base);
    u.append("/generate/compare");
    u
}

/// A Unicode `White_Space` character (what `str::trim` removes).
pub open spec fn is_white(c: char) -> bool {
    let u = c as u32;
    ||| 0x9 <= u <= 0xD
    ||| u == 0x20
    ||| u == 0x85
    ||| u == 0xA0
    ||| u == 0x1680
    ||| 0x2000 <= u <= 0x200A
    ||| u == 0x2028
    ||| u == 0x2029
    ||| u == 0x202F
    ||| u == 0x205F
    ||| u == 0x3000
}

/// Decides whether a character is Unicode white space.
pub fn white(c: char) -> (b: bool)
    ensures
        b == is_white(c),
{
    let u = c as u32;
    (0x9 <= u && u <= 0xD) || u == 0x20 || u == 0x85 || u == 0xA0 || u == 0x1680
        || (0x2000 <= u && u <= 0x200A) || u == 0x2028 || u == 0x2029 || u == 0x202F
        || u == 0x205F || u == 0x3000
}

/// `s` without its leading white space.
pub open spec fn trim_start(s: Seq<char>) -> Seq<char>
    decreases s.len(),
{
    if s.len() > 0 && is_white(s[0]) {
        trim_start(s.subrange(1, s.len() as int))
    } else {
        s
    }
}

/// `s` without its trailing white space.
pub open spec fn trim_end(s: Seq<char>) -> Seq<char>
    decreases s.len(),
{
    if s.len() > 0 && is_white(s.last()) {
        trim_end(s.drop_last())
    } else {
        s
    }
}

/// `s` without leading or trailing white space.
pub open spec fn trimmed(s: Seq<char>) -> Seq<char> {
    trim_end(trim_start(s))
}

/// A line without its `data: ` field prefix, if it has one.
pub open spec fn strip_data(s: Seq<char>) -> Seq<char> {
    if s.len() >= 6 && s.subrange(0, 6) == "data: "@ {
        s.subrange(6, s.len() as int)
    } else {
        s
    }
}

/// The text a stream line carries.
pub open spec fn chunk_text(line: Seq<char>) -> Seq<char> {
    trimmed(strip_data(line))
}

/// The text is passed on: it is not empty and not the end marker `[DONE]`.
pub open spec fn keeps(t: Seq<char>) -> bool {
    t.len() > 0 && t != "[DONE]"@
}

/// The position of the first line feed of `s`, or its length.
pub open spec fn newline_at(s: Seq<char>) -> int
    decreases s.len(),
{
    if s.len() == 0 {
        0
    } else if s[0] == '\n' {
        0
    } else {
        1 + newline_at(s.subrange(1, s.len() as int))
    }
}

/// The first line feed lies within the text.
pub proof fn lemma_newline_at_bound(s: Seq<char>)
    ensures
        0 <= newline_at(s) <= s.len(),
        newline_at(s) < s.len() ==> s[newline_at(s)] == '\n',
        forall|k: int| 0 <= k < newline_at(s) ==> s[k] != '\n',
    decreases s.len(),
{
    if s.len() > 0 && s[0] != '\n' {
        let t = s.subrange(1, s.len() as int);
        lemma_newline_at_bound(t);
        assert forall|k: int| 0 <= k < newline_at(s) implies s[k] != '\n' by {
            if k > 0 {
                assert(s[k] == t[k - 1]);
            }
        }
    }
}

/// A position with no line feed before it and a line feed (or the end) at it
/// is the first line feed.
pub proof fn lemma_newline_at_is(s: Seq<char>, i: int)
    requires
        0 <= i <= s.len(),
        forall|k: int| 0 <= k < i ==> s[k] != '\n',
        i == s.len() || s[i] == '\n',
    ensures
        newline_at(s) == i,
    decreases i,
{
    if i > 0 {
        let t = s.subrange(1, s.len() as int);
        assert forall|k: int| 0 <= k < i - 1 implies t[k] != '\n' by {
            assert(t[k] == s[k + 1]);
        }
        if i - 1 < t.len() {
            assert(t[i - 1] == s[i]);
        }
        lemma_newline_at_is(t, i - 1);
    }
}

/// The text pieces of a stream body, in order: each line (split at line
/// feeds, a carriage return before a line feed dropped) loses its `data: `
/// prefix and surrounding white space, and is kept unless empty or `[DONE]`.
pub open spec fn stream_chunks(s: Seq<char>) -> Seq<Seq<char>>
    decreases s.len(),
{
    if s.len() == 0 {
        Seq::empty()
    } else {
        let i = newline_at(s);
        proof {
            lemma_newline_at_bound(s);
        }
        let raw = s.subrange(0, i);
        let line = if i < s.len() && raw.len() > 0 && raw.last() == '\r' {
            raw.drop_last()
        } else {
            raw
        };
        let rest = if i < s.len() {
            s.subrange(i + 1, s.len() as int)
        } else {
            Seq::empty()
        };
        (if keeps(chunk_text(line)) {
            seq![chunk_text(line)]
        } else {
            Seq::empty()
        }) + stream_chunks(rest)
    }
}

/// Splits a stream body received from the router into the text pieces it
/// carries.
pub fn stream_chunk_texts(text: &str) -> (r: Vec<String>)
    ensures
        r@.map_values(|x: String| x@) == stream_chunks(text@),
{
    proof {
        reveal_strlit("data: ");
        reveal_strlit("[DONE]");
    }
    let ghost s = text@;
    let n = text.unicode_len();
    let mut out: Vec<String> = Vec::new();
    let mut start: usize = 0;
    proof {
        assert(s.subrange(0, n as int) =~= s);
    }
    while start < n
        invariant
            s == text@,
            n == s.len(),
            start <= n,
            out@.map_values(|x: String| x@) + stream_chunks(s.subrange(start as int, n as int)) == stream_chunks(s),
        decreases n - start,
    {
        let ghost rest = s.subrange(start as int, n as int);
        let mut i = start;
        while i < n && text.get_char(i) != '\n'
            invariant
                s == text@,
                n == s.len(),
                start <= i <= n,
                forall|k: int| start <= k < i ==> s[k] != '\n',
            decreases n - i,
        {
            i += 1;
        }
        proof {
            assert forall|k: int| 0 <= k < i - start implies rest[k] != '\n' by {
                assert(rest[k] == s[start + k]);
            }
            if i < n {
                assert(rest[i - start] == s[i as int]);
            }
            lemma_newline_at_is(rest, i - start);
        }
        let mut le = i;
        if i < n && i > start && text.get_char(i - 1) == '\r' {
            le = i - 1;
        }
        let next: usize = if i < n { i + 1 } else { n };
        let ghost line = s.subrange(start as int, le as int);
        proof {
            let raw = rest.subrange(0, i - start);
            assert(raw =~= s.subrange(start as int, i as int));
            if i < n && raw.len() > 0 && raw.last() == '\r' {
                assert(raw.drop_last() =~= line);
            } else {
                assert(raw =~= line);
            }
            if i < n {
                assert(rest.subrange(i - start + 1, rest.len() as int) =~= s.subrange(next as int, n as int));
            } else {
                assert(s.subrange(next as int, n as int) =~= Seq::<char>::empty());
            }
        }
        let mut a = start;
        if le - start >= 6 {
            let head = text.substring_char(start, start + 6);
            if str_is(head, "data: ") {
                a = start + 6;
            }
        }
        proof {
            if le - start >= 6 && line.subrange(0, 6) == "data: "@ {
                assert(line.subrange(0, 6) =~= s.subrange(start as int, start + 6));
                assert(a == start + 6);
                assert(strip_data(line) =~= s.subrange(a as int, le as int));
            } else {
                if le - start >= 6 {
                    assert(line.subrange(0, 6) =~= s.subrange(start as int, start + 6));
                }
                assert(strip_data(line) =~= s.subrange(a as int, le as int));
            }
        }
        let ghost a0 = a;
        while a < le && white(text.get_char(a))
            invariant
                s == text@,
                n == s.len(),
                a0 <= a <= le <= n,
                trim_start(s.subrange(a0 as int, le as int)) == trim_start(s.subrange(a as int, le as int)),
            decreases le - a,
        {
            proof {
                assert(s.subrange(a as int, le as int).subrange(1, le - a) =~= s.subrange(a + 1, le as int));
            }
            a += 1;
        }
        let mut b = le;
        proof {
            if a < le {
                assert(s.subrange(a as int, le as int)[0] == s[a as int]);
            }
            assert(trim_start(s.subrange(a as int, le as int)) == s.subrange(a as int, le as int));
        }
        while b > a && white(text.get_char(b - 1))
            invariant
                s == text@,
                n == s.len(),
                a <= b <= le <= n,
                trim_end(s.subrange(a as int, le as int)) == trim_end(s.subrange(a as int, b as int)),
            decreases b - a,
        {
            proof {
                assert(s.subrange(a as int, b as int).drop_last() =~= s.subrange(a as int, b - 1));
            }
            b -= 1;
        }
        proof {
            if b > a {
                assert(s.subrange(a as int, b as int).last() == s[b - 1]);
            }
            assert(trim_end(s.subrange(a as int, b as int)) == s.subrange(a as int, b as int));
            assert(chunk_text(line) == s.subrange(a as int, b as int));
        }
        let ghost before = out@.map_values(|x: String| x@);
        if b > a {
            let piece = text.substring_char(a, b);
            if !str_is(piece, "[DONE]") {
                let owned = String::from_str(piece);
                out.push(owned);
                proof {
                    assert(out@.map_values(|x: String| x@) =~= before.push(chunk_text(line)));
                }
            }
        }
        proof {
            let pre = if keeps(chunk_text(line)) { seq![chunk_text(line)] } else { Seq::<Seq<char>>::empty() };
            assert(out@.map_values(|x: String| x@) =~= before + pre);
            assert(stream_chunks(rest) == pre + stream_chunks(s.subrange(next as int, n as int)));
            assert(before + pre + stream_chunks(s.subrange(next as int, n as int)) =~= before + (pre + stream_chunks(s.subrange(next as int, n as int))));
        }
        start = next;
    }
    proof {
        assert(s.subrange(n as int, n as int) =~= Seq::<char>::empty());
        assert(out@.map_values(|x: String| x@) + Seq::<Seq<char>>::empty() =~= out@.map_values(|x: String| x@));
    }
    out
}

/// One event of a relayed generation stream: a piece of text from a
/// provider, a provider's failure, or the end of a provider's output.
#[derive(Debug)]
pub struct StreamFrame {
    pub provider: String,
    pub text: Option<String>,
    pub error: Option<String>,
    pub is_final: bool,
}

/// The events relayed for one provider: when the router answered, one event
/// per text piece and then a final event with empty text; when it could not
/// be reached, a single final event carrying the error.
pub fn provider_frames(provider: String, outcome: Result<Vec<String>, String>) -> (v: Vec<StreamFrame>)
    ensures
        match outcome {
            Ok(pieces) => {
                &&& v@.len() == pieces@.len() + 1
                &&& forall|i: int| 0 <= i < pieces@.len() ==> {
                    &&& (#[trigger] v@[i]).provider == provider
                    &&& v@[i].text == Some(pieces@[i])
                    &&& v@[i].error is None
                    &&& !v@[i].is_final
                }
                &&& v@[pieces@.len() as int].provider == provider
                &&& v@[pieces@.len() as int].text matches Some(t) && t@ == ""@
                &&& v@[pieces@.len() as int].error is None
                &&& v@[pieces@.len() as int].is_final
            },
            Err(e) => {
                &&& v@.len() == 1
                &&& v@[0].provider == provider
                &&& v@[0].text is None
                &&& v@[0].error == Some(e)
                &&& v@[0].is_final
            },
        },
{
    let mut v: Vec<StreamFrame> = Vec::new();
    match outcome {
        Ok(pieces) => {
            let mut i: usize = 0;
            while i < pieces.len()
                invariant
                    i <= pieces@.len(),
                    v@.len() == i,
                    forall|k: int| 0 <= k < i ==> {
                        &&& (#[trigger] v@[k]).provider == provider
                        &&& v@[k].text == Some(pieces@[k])
                        &&& v@[k].error is None
                        &&& !v@[k].is_final
                    },
                decreases pieces@.len() - i,
            {
                v.push(StreamFrame { provider: provider.clone(), text: Some(pieces[i].clone()), error: None, is_final: false });
                i += 1;
            }
            v.push(StreamFrame { provider, text: Some(String::from_str("")), error: None, is_final: true });
        },
        Err(e) => {
            v.push(StreamFrame { provider, text: None, error: Some(e), is_final: true });
        },
    }
    v
}

/// Trimming the start keeps a tail of the text that is empty or starts with
/// a character other than white space.
proof fn lemma_trim_start_shape(s: Seq<char>)
    ensures
        exists|k: int| 0 <= k <= s.len() && trim_start(s) == #[trigger] s.subrange(k, s.len() as int),
        trim_start(s).len() > 0 ==> !is_white(trim_start(s)[0]),
    decreases s.len(),
{
    if s.len() > 0 && is_white(s[0]) {
        let t = s.subrange(1, s.len() as int);
        lemma_trim_start_shape(t);
        let k = choose|k: int| 0 <= k <= t.len() && trim_start(t) == #[trigger] t.subrange(k, t.len() as int);
        assert(t.subrange(k, t.len() as int) =~= s.subrange(k + 1, s.len() as int));
    } else {
        assert(s.subrange(0, s.len() as int) =~= s);
    }
}

/// Trimming the end keeps a head of the text that is empty or ends with a
/// character other than white space.
proof fn lemma_trim_end_shape(s: Seq<char>)
    ensures
        exists|k: int| 0 <= k <= s.len() && trim_end(s) == #[trigger] s.subrange(0, k),
        trim_end(s).len() > 0 ==> !is_white(trim_end(s).last()),
    decreases s.len(),
{
    if s.len() > 0 && is_white(s.last()) {
        let t = s.drop_last();
        lemma_trim_end_shape(t);
        let k = choose|k: int| 0 <= k <= t.len() && trim_end(t) == #[trigger] t.subrange(0, k);
        assert(t.subrange(0, k) =~= s.subrange(0, k));
    } else {
        assert(s.subrange(0, s.len() as int) =~= s);
    }
}

/// The text a line carries holds no character the line does not hold at
/// that place, and neither starts nor ends with white space.
proof fn lemma_chunk_text_shape(line: Seq<char>)
    ensures
        forall|c: char| #[trigger] chunk_text(line).contains(c) ==> line.contains(c),
        chunk_text(line).len() > 0 ==> !is_white(chunk_text(line)[0]) && !is_white(chunk_text(line).last()),
{
    let a = strip_data(line);
    let b = trim_start(a);
    let c = trim_end(b);
    lemma_trim_start_shape(a);
    lemma_trim_end_shape(b);
    let k1 = choose|k: int| 0 <= k <= a.len() && b == #[trigger] a.subrange(k, a.len() as int);
    let k2 = choose|k: int| 0 <= k <= b.len() && c == #[trigger] b.subrange(0, k);
    assert forall|ch: char| #[trigger] c.contains(ch) implies line.contains(ch) by {
        let i = choose|i: int| 0 <= i < c.len() && c[i] == ch;
        assert(b[i] == ch);
        assert(a[k1 + i] == ch);
        if line.len() >= 6 && line.subrange(0, 6) == "data: "@ {
            assert(line[6 + k1 + i] == ch);
        } else {
            assert(line[k1 + i] == ch);
        }
    }
    if c.len() > 0 {
        assert(c[0] == b[0]);
    }
}

/// Every text piece of a stream body is non-empty, is not the end marker,
/// holds no line feed, and neither starts nor ends with white space.
pub proof fn lemma_stream_chunks_shape(s: Seq<char>)
    ensures
        forall|i: int| 0 <= i < stream_chunks(s).len() ==> {
            let c = #[trigger] stream_chunks(s)[i];
            &&& c.len() > 0
            &&& c != "[DONE]"@
            &&& !c.contains('\n')
            &&& !is_white(c[0])
            &&& !is_white(c.last())
        },
    decreases s.len(),
{
    if s.len() > 0 {
        let i = newline_at(s);
        lemma_newline_at_bound(s);
        let raw = s.subrange(0, i);
        let line = if i < s.len() && raw.len() > 0 && raw.last() == '\r' {
            raw.drop_last()
        } else {
            raw
        };
        let rest = if i < s.len() {
            s.subrange(i + 1, s.len() as int)
        } else {
            Seq::empty()
        };
        lemma_stream_chunks_shape(rest);
        lemma_chunk_text_shape(line);
        assert(!line.contains('\n')) by {
            if line.contains('\n') {
                let k = choose|k: int| 0 <= k < line.len() && line[k] == '\n';
                assert(raw[k] == '\n');
                assert(s[k] == '\n');
            }
        }
        let head = if keeps(chunk_text(line)) { seq![chunk_text(line)] } else { Seq::<Seq<char>>::empty() };
        assert(stream_chunks(s) == head + stream_chunks(rest));
        assert forall|j: int| 0 <= j < stream_chunks(s).len() implies {
            let c = #[trigger] stream_chunks(s)[j];
            &&& c.len() > 0
            &&& c != "[DONE]"@
            &&& !c.contains('\n')
            &&& !is_white(c[0])
            &&& !is_white(c.last())
        } by {
            if j < head.len() {
                assert(stream_chunks(s)[j] == chunk_text(line));
            } else {
                assert(stream_chunks(s)[j] == stream_chunks(rest)[j - head.len()]);
            }
        }
    }
}

/// A stream body is read line by line: a line (without a carriage return
/// at its end) followed by a line feed gives the text it carries, if kept,
/// before the pieces of the rest of the body.
pub proof fn lemma_stream_chunks_line_by_line(line: Seq<char>, rest: Seq<char>)
    requires
        forall|k: int| 0 <= k < line.len() ==> line[k] != '\n',
        line.len() == 0 || line.last() != '\r',
    ensures
        stream_chunks(line + seq!['\n'] + rest)
            == (if keeps(chunk_text(line)) { seq![chunk_text(line)] } else { Seq::<Seq<char>>::empty() })
                + stream_chunks(rest),
{
    let s = line + seq!['\n'] + rest;
    let i = line.len() as int;
    assert forall|k: int| 0 <= k < i implies s[k] != '\n' by {
        assert(s[k] == line[k]);
    }
    assert(s[i] == '\n');
    lemma_newline_at_is(s, i);
    assert(s.subrange(0, i) =~= line);
    assert(s.subrange(i + 1, s.len() as int) =~= rest);
}

} // verus!
