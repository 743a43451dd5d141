//! What the static file server decides: which file a request line asks
//! for, the content type of a file by its extension, and the response head.

use vstd::prelude::*;
use crate::text::{chars_of, decimal, push_char, push_decimal, same_text};

verus! {

/// The content type served for a file with extension `extension`.
pub open spec fn content_type_of(extension: Option<Seq<char>>) -> Seq<char> {
    match extension {
        Some(e) => if e == "html"@ {
            "text/html"@
        } else if e == "js"@ {
            "application/javascript"@
        } else if e == "wasm"@ {
            "application/wasm"@
        } else if e == "css"@ {
            "text/css"@
        } else if e == "svg"@ {
            "image/svg+xml"@
        } else {
            "application/octet-stream"@
        },
        None => "application/octet-stream"@,
    }
}

/// The content type served for a file with extension `extension` (none
/// where the file name has none, or it is not valid Unicode).
pub fn content_type(extension: Option<&str>) -> (t: &'static str)
    ensures
        t@ == content_type_of(
            match extension {
                Some(e) => Some(e@),
                None => None,
            },
        ),
{
    match extension {
        Some(e) => if same_text(e, "html") {
            "text/html"
        } else if same_text(e, "js") {
            "application/javascript"
        } else if same_text(e, "wasm") {
            "application/wasm"
        } else if same_text(e, "css") {
            "text/css"
        } else if same_text(e, "svg") {
            "image/svg+xml"
        } else {
            "application/octet-stream"
        },
        None => "application/octet-stream",
    }
}

/// Content-type law: each of the five known extensions (html, js, wasm,
/// css, svg) is served with a type of its own, none of them the generic
/// byte stream that a file without extension gets, and every type is of
/// the form `kind/subkind`.
pub proof fn lemma_content_types(e1: Seq<char>, e2: Seq<char>, e: Option<Seq<char>>)
    ensures
        ({
            let known = seq!["html"@, "js"@, "wasm"@, "css"@, "svg"@];
            known.contains(e1) && known.contains(e2) && e1 != e2 ==> content_type_of(Some(e1))
                != content_type_of(Some(e2))
        }),
        ({
            let known = seq!["html"@, "js"@, "wasm"@, "css"@, "svg"@];
            known.contains(e1) ==> content_type_of(Some(e1)) != content_type_of(None)
        }),
        content_type_of(e).contains('/'),
{
    reveal_strlit("html");
    reveal_strlit("js");
    reveal_strlit("wasm");
    reveal_strlit("css");
    reveal_strlit("svg");
    reveal_strlit("text/html");
    reveal_strlit("application/javascript");
    reveal_strlit("application/wasm");
    reveal_strlit("text/css");
    reveal_strlit("image/svg+xml");
    reveal_strlit("application/octet-stream");
    let types = seq!["text/html"@, "application/javascript"@, "application/wasm"@, "text/css"@, "image/svg+xml"@,
        "application/octet-stream"@];
    assert forall|i: int, j: int| 0 <= i < j < 6 implies #[trigger] types[i] != #[trigger] types[j] by {
        if types[i].len() == types[j].len() {
            assert(types[i][0] != types[j][0] || types[i][12] != types[j][12]);
        }
    }
    let known = seq!["html"@, "js"@, "wasm"@, "css"@, "svg"@];
    assert forall|i: int, j: int| 0 <= i < j < 5 implies #[trigger] known[i] != #[trigger] known[j] by {
        if known[i].len() == known[j].len() {
            assert(known[i][0] != known[j][0]);
        }
    }
    assert forall|i: int| 0 <= i < 5 implies content_type_of(Some(#[trigger] known[i])) == types[i] by {}
    assert(content_type_of(None) == types[5]);
    if known.contains(e1) && known.contains(e2) {
        let i = choose|i: int| 0 <= i < 5 && known[i] == e1;
        let j = choose|j: int| 0 <= j < 5 && known[j] == e2;
        assert(content_type_of(Some(known[i])) == types[i]);
        assert(content_type_of(Some(known[j])) == types[j]);
    }
    let t = content_type_of(e);
    assert(types[0][4] == '/');
    assert(types[1][11] == '/');
    assert(types[2][11] == '/');
    assert(types[3][4] == '/');
    assert(types[4][5] == '/');
    assert(types[5][11] == '/');
    match e {
        Some(x) => {
            if x == known[0] {
                assert(t == types[0]);
            } else if x == known[1] {
                assert(t == types[1]);
            } else if x == known[2] {
                assert(t == types[2]);
            } else if x == known[3] {
                assert(t == types[3]);
            } else if x == known[4] {
                assert(t == types[4]);
            } else {
                assert(t == types[5]);
            }
        },
        None => {},
    }
}

/// Whether `c` has the Unicode White_Space property, as `char::is_whitespace`
/// tests it: U+0009 to U+000D, U+0020, U+0085, U+00A0, U+1680, U+2000 to
/// U+200A, U+2028, U+2029, U+202F, U+205F and U+3000.
pub open spec fn is_white(c: char) -> bool {
    let u = c as u32;
    ||| 0x9 <= u <= 0xd
    ||| u == 0x20
    ||| u == 0x85
    ||| u == 0xa0
    ||| u == 0x1680
    ||| 0x2000 <= u <= 0x200a
    ||| u == 0x2028
    ||| u == 0x2029
    ||| u == 0x202f
    ||| u == 0x205f
    ||| u == 0x3000
}

fn white(c: char) -> (b: bool)
    ensures
        b == is_white(c),
{
    let u = c as u32;
    (0x9 <= u && u <= 0xd) || u == 0x20 || u == 0x85 || u == 0xa0 || u == 0x1680 || (0x2000 <= u
        && u <= 0x200a) || u == 0x2028 || u == 0x2029 || u == 0x202f || u == 0x205f || u == 0x3000
}

/// The first index at or after `i` whose character is not white space.
pub open spec fn skip_white(s: Seq<char>, i: int) -> int
    decreases s.len() - i,
{
    if 0 <= i < s.len() && is_white(s[i]) {
        skip_white(s, i + 1)
    } else {
        i
    }
}

/// The first index at or after `i` whose character is white space.
pub open spec fn word_end(s: Seq<char>, i: int) -> int
    decreases s.len() - i,
{
    if 0 <= i < s.len() && !is_white(s[i]) {
        word_end(s, i + 1)
    } else {
        i
    }
}

/// The second white-space separated word of `s`, if it has one.
pub open spec fn second_word(s: Seq<char>) -> Option<Seq<char>> {
    let a = skip_white(s, 0);
    let b = word_end(s, a);
    let c = skip_white(s, b);
    if c < s.len() {
        Some(s.subrange(c, word_end(s, c)))
    } else {
        None
    }
}

/// The part of `s` before its first `c`, all of `s` where it has none.
pub open spec fn before_char(s: Seq<char>, c: char) -> Seq<char>
    decreases s.len(),
{
    if s.len() == 0 {
        s
    } else if s[0] == c {
        seq![]
    } else {
        seq![s[0]] + before_char(s.drop_first(), c)
    }
}

/// `s` without its leading slashes.
pub open spec fn trim_slashes(s: Seq<char>) -> Seq<char>
    decreases s.len(),
{
    if s.len() > 0 && s[0] == '/' {
        trim_slashes(s.drop_first())
    } else {
        s
    }
}

/// The file, relative to the served directory, that a request line asks
/// for: its second word (the target, "/" where there is none) up to any
/// query; "index.html" for "/", the path without leading slashes otherwise.
pub open spec fn requested_file(line: Seq<char>) -> Seq<char> {
    let target = match second_word(line) {
        Some(w) => w,
        None => "/"@,
    };
    let path = before_char(target, '?');
    if path == "/"@ {
        "index.html"@
    } else {
        trim_slashes(path)
    }
}

proof fn lemma_trim_slashes(s: Seq<char>)
    ensures
        trim_slashes(s).len() > 0 ==> trim_slashes(s)[0] != '/',
        trim_slashes(s).len() <= s.len(),
    decreases s.len(),
{
    if s.len() > 0 && s[0] == '/' {
        lemma_trim_slashes(s.drop_first());
    }
}

/// Request law: the requested file is a relative path, never starting
/// with `/`, so it names a file under the served directory rather than
/// replacing it.
pub proof fn lemma_requested_file_relative(line: Seq<char>)
    ensures
        requested_file(line).len() > 0 ==> requested_file(line)[0] != '/',
{
    reveal_strlit("index.html");
    let target = match second_word(line) {
        Some(w) => w,
        None => "/"@,
    };
    lemma_trim_slashes(before_char(target, '?'));
}

fn skip_white_from(s: &Vec<char>, i: usize) -> (j: usize)
    requires
        i <= s@.len(),
    ensures
        j == skip_white(s@, i as int),
        i <= j <= s@.len(),
    decreases s@.len() - i,
{
    if i < s.len() && white(s[i]) {
        skip_white_from(s, i + 1)
    } else {
        i
    }
}

fn word_end_from(s: &Vec<char>, i: usize) -> (j: usize)
    requires
        i <= s@.len(),
    ensures
        j == word_end(s@, i as int),
        i <= j <= s@.len(),
    decreases s@.len() - i,
{
    if i < s.len() && !white(s[i]) {
        word_end_from(s, i + 1)
    } else {
        i
    }
}

/// The file, relative to the served directory, that the request line
/// `line` asks for.
pub fn request_file(line: &str) -> (file: String)
    ensures
        file@ == requested_file(line@),
{
    let cs = chars_of(line);
    let a = skip_white_from(&cs, 0);
    let b = word_end_from(&cs, a);
    let c = skip_white_from(&cs, b);
    let mut target: Vec<char> = Vec::new();
    if c < cs.len() {
        let d = word_end_from(&cs, c);
        let mut i = c;
        while i < d
            invariant
                c <= i <= d <= cs@.len(),
                target@ == cs@.subrange(c as int, i as int),
            decreases d - i,
        {
            target.push(cs[i]);
            proof {
                assert(target@ =~= cs@.subrange(c as int, i + 1));
            }
            i = i + 1;
        }
    } else {
        target.push('/');
        proof {
            reveal_strlit("/");
            assert(target@ =~= "/"@);
        }
    }
    let ghost tv = target@;
    assert(tv == match second_word(cs@) {
        Some(w) => w,
        None => "/"@,
    });
    let mut end: usize = 0;
    proof {
        assert(tv.take(0) =~= Seq::<char>::empty());
        assert(tv.skip(0) =~= tv);
        assert(before_char(tv, '?') =~= tv.take(0) + before_char(tv.skip(0), '?'));
    }
    while end < target.len() && target[end] != '?'
        invariant
            end <= target@.len(),
            target@ == tv,
            before_char(tv, '?') == tv.take(end as int) + before_char(tv.skip(end as int), '?'),
        decreases target@.len() - end,
    {
        proof {
            let rest = tv.skip(end as int);
            assert(rest[0] == tv[end as int]);
            assert(rest.drop_first() =~= tv.skip(end + 1));
            assert(tv.take(end + 1) =~= tv.take(end as int) + seq![tv[end as int]]);
        }
        end = end + 1;
    }
    proof {
        if end < tv.len() {
            assert(tv.skip(end as int)[0] == '?');
        } else {
            assert(tv.skip(end as int) =~= Seq::<char>::empty());
        }
        assert(before_char(tv, '?') =~= tv.take(end as int));
    }
    if end == 1 && target[0] == '/' {
        proof {
            reveal_strlit("/");
            assert(tv.take(1) =~= "/"@);
        }
        return String::from_str("index.html");
    }
    let mut start: usize = 0;
    proof {
        assert(tv.take(end as int).subrange(0, end as int) =~= tv.take(end as int));
    }
    while start < end && target[start] == '/'
        invariant
            start <= end <= target@.len(),
            target@ == tv,
            trim_slashes(tv.take(end as int)) == trim_slashes(tv.subrange(start as int, end as int)),
        decreases end - start,
    {
        proof {
            assert(tv.subrange(start as int, end as int).drop_first() =~= tv.subrange(start + 1, end as int));
        }
        start = start + 1;
    }
    let mut file = String::new();
    let mut i = start;
    while i < end
        invariant
            start <= i <= end <= target@.len(),
            target@ == tv,
            file@ == tv.subrange(start as int, i as int),
        decreases end - i,
    {
        push_char(&mut file, target[i]);
        proof {
            assert(file@ =~= tv.subrange(start as int, i + 1));
        }
        i = i + 1;
    }
    proof {
        reveal_strlit("/");
        let path = tv.take(end as int);
        if path == "/"@ {
            assert(path.len() == 1 && path[0] == '/');
            assert(end == 1 && tv[0] == '/');
        }
        if start < end {
            assert(tv.subrange(start as int, end as int)[0] == tv[start as int]);
        }
        assert(trim_slashes(tv.subrange(start as int, end as int)) == tv.subrange(start as int, end as int));
    }
    file
}

/// The head of a response that serves a body of `body_len` bytes of type
/// `content_type`.
pub open spec fn ok_head_text(content_type: Seq<char>, body_len: nat) -> Seq<char> {
    "HTTP/1.1 200 OK\r\nContent-Type: "@ + content_type + "\r\nContent-Length: "@ + decimal(body_len)
        + "\r\n\r\n"@
}

/// Response law: the head announces the body's length, read back as a
/// number from between the `Content-Length: ` field name and the blank line
/// that ends the head, and the type given, between `Content-Type: ` and
/// the end of its line.
pub proof fn lemma_ok_head_fields(content_type: Seq<char>, body_len: nat)
    ensures
        ({
            let h = ok_head_text(content_type, body_len);
            let a = "HTTP/1.1 200 OK\r\nContent-Type: "@.len();
            let b = a + content_type.len() + "\r\nContent-Length: "@.len();
            &&& h.subrange(a as int, (a + content_type.len()) as int) == content_type
            &&& crate::text::digits_value(h.subrange(b as int, h.len() - 4)) == body_len
            &&& h.subrange(h.len() - 4, h.len() as int) == "\r\n\r\n"@
        }),
{
    reveal_strlit("\r\n\r\n");
    let h = ok_head_text(content_type, body_len);
    let p1 = "HTTP/1.1 200 OK\r\nContent-Type: "@;
    let p2 = "\r\nContent-Length: "@;
    let d = decimal(body_len);
    let e = "\r\n\r\n"@;
    let a = p1.len();
    let b = a + content_type.len() + p2.len();
    assert(h == p1 + content_type + p2 + d + e);
    assert(h.subrange(a as int, (a + content_type.len()) as int) =~= content_type);
    assert(h.subrange(b as int, h.len() - 4) =~= d);
    assert(h.subrange(h.len() - 4, h.len() as int) =~= e);
    crate::text::lemma_decimal_value(body_len);
}

/// The head of a response that serves a body of `body_len` bytes of type
/// `content_type`.
pub fn ok_head(content_type: &str, body_len: usize) -> (head: String)
    ensures
        head@ == ok_head_text(content_type@, body_len as nat),
{
    let mut head = String::from_str("HTTP/1.1 200 OK\r\nContent-Type: ");
    head.append(content_type);
    head.append("\r\nContent-Length: ");
    push_decimal(&mut head, body_len as u64);
    head.append("\r\n\r\n");
    head
}

/// The whole response for a file that cannot be read.
pub const NOT_FOUND: &'static str = "HTTP/1.1 404 Not Found\r\nContent-Length: 0\r\n\r\n";

} // verus!
