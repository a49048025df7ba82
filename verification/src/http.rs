//! HTTP/1.1 as far as one POST and one response need it.
//!
//! Every response closes the connection, and a request body is as long as its
//! `Content-Length` says.
use vstd::prelude::*;
use vstd::utf8::encode_utf8;
use crate::json::{field, json_text, object, one_line, print, Json, Tree};
use crate::text::{
    chars_of, decimal, decimal_text, end_of_text, find_space, find_word, is_space, lemma_decimal,
    parse_usize, slice_chars, space_from, text_of, trim, trimmed, trimmed_end, unsigned_value,
    word_from,
};

verus! {

/// A request.
pub struct Request {
    pub method: String,
    pub path: String,
    pub body: Vec<u8>,
}

// ---------------------------------------------------------------- reading
/// The first two words of a line.
pub open spec fn two_words(s: Seq<char>) -> Option<(Seq<char>, Seq<char>)> {
    let a = word_from(s, 0);
    let b = space_from(s, a);
    let c = word_from(s, b);
    let d = space_from(s, c);
    if c < s.len() {
        Some((s.subrange(a, b), s.subrange(c, d)))
    } else {
        None
    }
}

/// An ASCII letter in lower case, any other character as it is.
pub open spec fn lower(c: char) -> char {
    if 'A' <= c <= 'Z' {
        (c as u32 + 32) as char
    } else {
        c
    }
}

/// Whether `i` is the first colon of a line.
pub open spec fn first_colon(s: Seq<char>, i: int) -> bool {
    0 <= i < s.len() && s[i] == ':' && forall|j: int| 0 <= j < i ==> (#[trigger] s[j]) != ':'
}

/// The body length that a header line gives, if it gives one; zero where what it
/// gives is no number.
pub open spec fn length_given(line: Seq<char>) -> Option<nat> {
    let h = trimmed_end(line);
    if exists|i: int| first_colon(h, i) {
        let i = choose|i: int| first_colon(h, i);
        if h.take(i).map_values(|c: char| lower(c)) == "content-length"@ {
            match unsigned_value(trimmed(h.skip(i + 1))) {
                Some(n) => if n <= usize::MAX {
                    Some(n)
                } else {
                    Some(0)
                },
                None => Some(0),
            }
        } else {
            None
        }
    } else {
        None
    }
}

/// Why a body may not be read: it is longer than the limit.
pub open spec fn body_flaw(len: nat, max_body: nat) -> Option<Seq<char>> {
    if len <= max_body {
        None
    } else {
        Some(
            "request body "@ + decimal(len) + " bytes exceeds the "@ + decimal(max_body)
                + "-byte limit"@,
        )
    }
}

/// A body of just the limit may be read, one byte more may not.
pub proof fn law_the_limit_may_be_reached(len: nat, max_body: nat)
    ensures
        body_flaw(max_body, max_body) is None,
        body_flaw(max_body + 1, max_body) is Some,
        body_flaw(len, max_body) is None ==> len <= max_body,
        len <= max_body ==> body_flaw(len, max_body) is None,
{
}

/// The head of a request, as far as it has been read.
pub struct Head {
    pub method: String,
    pub path: String,
    /// the length of the body
    pub len: usize,
}

impl Head {
    /// Begins with the request line. `None` means that there is nothing to reply to.
    pub fn start(line: &str) -> (r: Option<Head>)
        ensures
            match r {
                Some(h) => two_words(line@) == Some((h.method@, h.path@)) && h.len == 0,
                None => two_words(line@) is None,
            },
    {
        let cs = chars_of(line);
        let a: usize = find_word(&cs, 0);
        let b: usize = find_space(&cs, a);
        let c: usize = find_word(&cs, b);
        let d: usize = find_space(&cs, c);
        if c == cs.len() {
            return None;
        }
        let method = text_of(slice_chars(&cs, a, b).as_slice());
        let path = text_of(slice_chars(&cs, c, d).as_slice());
        Some(Head { method, path, len: 0 })
    }

    /// Takes a header line. Returns whether the head ends with it.
    pub fn line(&mut self, line: &str) -> (last: bool)
        ensures
            last == (trimmed_end(line@).len() == 0),
            final(self).method == old(self).method,
            final(self).path == old(self).path,
            final(self).len == match length_given(line@) {
                Some(n) => n,
                None => old(self).len as nat,
            },
    {
        let all = chars_of(line);
        let n: usize = end_of_text(&all);
        let cs = slice_chars(&all, 0, n);
        let ghost h = trimmed_end(line@);
        assert(cs@ =~= h);
        if n == 0 {
            assert forall|i: int| !first_colon(h, i) by {}
            return true;
        }
        let mut i: usize = 0;
        while i < cs.len() && cs[i] != ':'
            invariant
                i <= cs@.len(),
                forall|j: int| 0 <= j < i ==> (#[trigger] cs@[j]) != ':',
            decreases cs@.len() - i,
        {
            i += 1;
        }
        if i == cs.len() {
            assert forall|i: int| !first_colon(h, i) by {}
            return false;
        }
        proof {
            assert(first_colon(h, i as int));
            let k = choose|k: int| first_colon(h, k);
            assert(k == i);
        }
        let key = slice_chars(&cs, 0, i);
        let want = chars_of("content-length");
        let mut same: bool = key.len() == want.len();
        let mut j: usize = 0;
        while j < key.len() && same
            invariant
                j <= key@.len(),
                same ==> key@.len() == want@.len(),
                same ==> forall|x: int| 0 <= x < j ==> lower(#[trigger] key@[x]) == want@[x],
                !same ==> key@.len() != want@.len() || exists|x: int|
                    0 <= x < key@.len() && lower(#[trigger] key@[x]) != want@[x],
            decreases key@.len() - j,
        {
            if lower_char(key[j]) != want[j] {
                same = false;
            }
            j += 1;
        }
        proof {
            let low = h.take(i as int).map_values(|c: char| lower(c));
            assert(key@ =~= h.take(i as int));
            if same {
                assert(low =~= want@);
            } else if key@.len() == want@.len() {
                let x = choose|x: int| 0 <= x < key@.len() && lower(#[trigger] key@[x]) != want@[x];
                assert(low[x] == lower(key@[x]));
                assert(low != want@);
            }
        }
        if same {
            let value = slice_chars(&cs, i + 1, cs.len());
            assert(value@ =~= h.skip(i + 1));
            let text = text_of(trim(&value).as_slice());
            self.len = match parse_usize(text.as_str()) {
                Some(n) => n,
                None => 0,
            };
        }
        false
    }

    /// The request, with the body that its head announces.
    pub fn with_body(self, body: Vec<u8>) -> (r: Request)
        requires
            body@.len() == self.len,
        ensures
            r.method == self.method,
            r.path == self.path,
            r.body == body,
    {
        Request { method: self.method, path: self.path, body }
    }

    /// Whether the body may be read: an error says that it is too long.
    pub fn check(&self, max_body: usize) -> (r: Result<(), String>)
        ensures
            match r {
                Ok(_) => body_flaw(self.len as nat, max_body as nat) is None,
                Err(e) => body_flaw(self.len as nat, max_body as nat) == Some(e@),
            },
    {
        if self.len <= max_body {
            return Ok(());
        }
        let mut e = "request body ".to_owned();
        e.append(decimal_text(self.len as u64).as_str());
        e.append(" bytes exceeds the ");
        e.append(decimal_text(max_body as u64).as_str());
        e.append("-byte limit");
        Err(e)
    }
}

fn lower_char(c: char) -> (r: char)
    ensures
        r == lower(c),
{
    if 'A' <= c && c <= 'Z' {
        ((c as u32 + 32) as u8) as char
    } else {
        c
    }
}

/// Whether a text is one word.
pub open spec fn one_word(s: Seq<char>) -> bool {
    s.len() > 0 && forall|i: int| 0 <= i < s.len() ==> !is_space(#[trigger] s[i])
}

proof fn lemma_word_ends(s: Seq<char>, from: int, to: int)
    requires
        0 <= from <= to < s.len(),
        forall|i: int| from <= i < to ==> !is_space(#[trigger] s[i]),
        is_space(s[to]),
    ensures
        space_from(s, from) == to,
    decreases to - from,
{
    if from < to {
        lemma_word_ends(s, from + 1, to);
    }
}

/// A request line gives back its method and its path, whatever stands behind them.
pub proof fn law_request_lines_are_read(method: Seq<char>, path: Seq<char>, rest: Seq<char>)
    requires
        one_word(method),
        one_word(path),
    ensures
        two_words(method + seq![' '] + path + seq![' '] + rest) == Some((method, path)),
{
    let s = method + seq![' '] + path + seq![' '] + rest;
    let b = method.len() as int;
    let c = b + 1;
    let d = c + path.len();
    assert(s[0] == method[0] && s[b] == ' ' && s[c] == path[0] && s[d] == ' ');
    assert forall|i: int| 0 <= i < b implies !is_space(#[trigger] s[i]) by {
        assert(s[i] == method[i]);
    }
    assert forall|i: int| c <= i < d implies !is_space(#[trigger] s[i]) by {
        assert(s[i] == path[i - c]);
    }
    lemma_word_ends(s, 0, b);
    assert(word_from(s, b) == word_from(s, c));
    assert(word_from(s, c) == c);
    lemma_word_ends(s, c, d);
    assert(s.subrange(0, b) =~= method);
    assert(s.subrange(c, d) =~= path);
}

proof fn lemma_line_end(s: Seq<char>)
    requires
        s.len() > 0,
        !is_space(s.last()),
    ensures
        trimmed_end(s) == s,
        trimmed_end(s + seq!['\r', '\n']) == s,
{
    let t = s + seq!['\r', '\n'];
    assert(t.drop_last() =~= s.push('\r'));
    assert(s.push('\r').drop_last() =~= s);
    assert(t.last() == '\n' && s.push('\r').last() == '\r');
    assert(trimmed_end(t) == trimmed_end(s.push('\r')));
    assert(trimmed_end(s.push('\r')) == trimmed_end(s));
}

/// Whether a name is `word`, letter by letter, with some letters in upper case.
pub open spec fn same_letters(name: Seq<char>, word: Seq<char>) -> bool {
    &&& name.len() == word.len()
    &&& forall|i: int|
        0 <= i < name.len() ==> (#[trigger] name[i]) == word[i] || ('A' <= name[i] <= 'Z'
            && name[i] as int + 32 == word[i] as int)
}

proof fn lemma_same_letters(name: Seq<char>)
    ensures
        same_letters(name, "content-length"@) <==> name.map_values(|c: char| lower(c))
            == "content-length"@,
{
    reveal_strlit("content-length");
    let w = "content-length"@;
    let low = name.map_values(|c: char| lower(c));
    assert forall|i: int| 0 <= i < w.len() implies !('A' <= #[trigger] w[i] <= 'Z') by {}
    if same_letters(name, w) {
        assert forall|i: int| 0 <= i < low.len() implies #[trigger] low[i] == w[i] by {
            assert(name[i] == w[i] || ('A' <= name[i] <= 'Z' && name[i] as int + 32
                == w[i] as int));
        }
        assert(low =~= w);
    }
    if low == w {
        assert(name.len() == w.len());
        assert forall|i: int| 0 <= i < name.len() implies (#[trigger] name[i]) == w[i] || ('A'
            <= name[i] <= 'Z' && name[i] as int + 32 == w[i] as int) by {
            assert(low[i] == lower(name[i]));
        }
    }
}

/// The length of a body is what the line `Content-Length` says, in whatever case its
/// name is written.
pub proof fn law_body_lengths_are_read(name: Seq<char>, n: nat)
    requires
        n <= usize::MAX,
        same_letters(name, "content-length"@),
    ensures
        length_given(name + seq![':', ' '] + decimal(n) + seq!['\r', '\n']) == Some(n),
{
    reveal_strlit("content-length");
    lemma_same_letters(name);
    let d = decimal(n);
    let h = name + seq![':', ' '] + d;
    let k = name.len() as int;
    lemma_decimal(n);
    assert(h.last() == d.last());
    assert(!is_space(d.last()) && !is_space(d[0]));
    lemma_line_end(h);
    assert forall|j: int| 0 <= j < k implies (#[trigger] h[j]) != ':' by {
        assert(h[j] == name[j]);
        assert("content-length"@[j] != ':');
    }
    assert(h[k] == ':');
    assert(first_colon(h, k));
    let i = choose|i: int| first_colon(h, i);
    assert(i == k) by {
        if i < k {
            assert(h[i] != ':');
        } else if k < i {
            assert(h[k] != ':');
        }
    }
    assert(h.take(k) =~= name);
    let v = h.skip(k + 1);
    assert(v =~= seq![' '] + d);
    assert(v[0] == ' ' && v[1] == d[0]);
    assert(word_from(v, 0) == word_from(v, 1));
    assert(word_from(v, 1) == 1);
    assert(v.skip(1) =~= d);
    lemma_line_end(d);
    assert(d[0] != '+');
}

/// A line whose name is another one says nothing of the body, and the empty line
/// alone ends the head.
pub proof fn law_other_lines_say_nothing(name: Seq<char>, value: Seq<char>)
    requires
        !same_letters(name, "content-length"@),
        !name.contains(':'),
        value.len() > 0,
        !is_space(value.last()),
    ensures
        length_given(name + seq![':'] + value + seq!['\r', '\n']) is None,
        trimmed_end(name + seq![':'] + value + seq!['\r', '\n']).len() > 0,
        trimmed_end(seq!['\r', '\n']).len() == 0,
{
    lemma_same_letters(name);
    let h = name + seq![':'] + value;
    let k = name.len() as int;
    lemma_line_end(h);
    assert forall|j: int| 0 <= j < k implies (#[trigger] h[j]) != ':' by {
        assert(name.contains(name[j]));
    }
    assert(h[k] == ':');
    assert(first_colon(h, k));
    let i = choose|i: int| first_colon(h, i);
    assert(i == k) by {
        if i < k {
            assert(h[i] != ':');
        } else if k < i {
            assert(h[k] != ':');
        }
    }
    assert(h.take(k) =~= name);
    let e = seq!['\r', '\n'];
    assert(e.drop_last() =~= seq!['\r']);
    assert(seq!['\r'].drop_last() =~= Seq::empty());
    assert(trimmed_end(e) == trimmed_end(seq!['\r']));
    assert(trimmed_end(seq!['\r']) == trimmed_end(Seq::empty()));
}

// ---------------------------------------------------------------- writing
/// The reason phrase of a status code.
pub open spec fn reason_of(code: u16) -> Seq<char> {
    if code == 400 {
        "Bad Request"@
    } else if code == 404 {
        "Not Found"@
    } else if code == 413 {
        "Payload Too Large"@
    } else if code == 500 {
        "Internal Server Error"@
    } else {
        "OK"@
    }
}

fn reason(code: u16) -> (r: &'static str)
    ensures
        r@ == reason_of(code),
{
    if code == 400 {
        "Bad Request"
    } else if code == 404 {
        "Not Found"
    } else if code == 413 {
        "Payload Too Large"
    } else if code == 500 {
        "Internal Server Error"
    } else {
        "OK"
    }
}

/// The head of a response with a body of `n` bytes.
pub open spec fn response_head(code: u16, ctype: Seq<char>, n: nat) -> Seq<char> {
    "HTTP/1.1 "@ + decimal(code as nat) + " "@ + reason_of(code) + "\r\nContent-Type: "@ + ctype
        + "\r\nContent-Length: "@ + decimal(n)
        + "\r\nAccess-Control-Allow-Origin: *\r\nConnection: close\r\n\r\n"@
}

/// A whole response.
pub open spec fn response_bytes(code: u16, ctype: Seq<char>, body: Seq<u8>) -> Seq<u8> {
    encode_utf8(response_head(code, ctype, body.len())) + body
}

/// A whole response.
pub fn respond(code: u16, ctype: &str, body: &[u8]) -> (r: Vec<u8>)
    ensures
        r@ == response_bytes(code, ctype@, body@),
{
    let mut head = "HTTP/1.1 ".to_owned();
    head.append(decimal_text(code as u64).as_str());
    head.append(" ");
    head.append(reason(code));
    head.append("\r\nContent-Type: ");
    head.append(ctype);
    head.append("\r\nContent-Length: ");
    head.append(decimal_text(body.len() as u64).as_str());
    head.append("\r\nAccess-Control-Allow-Origin: *\r\nConnection: close\r\n\r\n");
    let mut r: Vec<u8> = Vec::new();
    r.extend_from_slice(head.as_str().as_bytes());
    r.extend_from_slice(body);
    assert(r@ =~= response_bytes(code, ctype@, body@));
    r
}

/// A response whose body is a JSON value.
pub open spec fn json_response(code: u16, t: Tree) -> Seq<u8> {
    response_bytes(code, "application/json"@, encode_utf8(json_text(t)))
}

/// A response whose body is a JSON value.
pub fn respond_json(code: u16, j: &Json) -> (r: Vec<u8>)
    ensures
        r@ == json_response(code, j.tree()),
{
    let body = print(j);
    respond(code, "application/json", body.as_str().as_bytes())
}

/// What an error says.
pub open spec fn error_tree(msg: Seq<char>, kind: Seq<char>) -> Tree {
    Tree::Obj(
        seq![
            (
                "error"@,
                Tree::Obj(seq![("message"@, Tree::Str(msg)), ("type"@, Tree::Str(kind))]),
            ),
        ],
    )
}

/// A response that reports an error.
pub fn json_error(code: u16, msg: &str, kind: &str) -> (r: Vec<u8>)
    ensures
        r@ == json_response(code, error_tree(msg@, kind@)),
{
    let inner = object(
        vec![
            field("message", Json::Str(msg.to_owned())),
            field("type", Json::Str(kind.to_owned())),
        ],
    );
    let j = object(vec![field("error", inner)]);
    proof {
        let want = error_tree(msg@, kind@);
        assert(inner.tree()->Obj_0 =~= want->Obj_0[0].1->Obj_0);
        assert(j.tree()->Obj_0 =~= want->Obj_0);
    }
    respond_json(code, &j)
}

/// The head of a stream of server-sent events.
pub open spec fn sse_head() -> Seq<char> {
    "HTTP/1.1 200 OK\r\nContent-Type: text/event-stream\r\nCache-Control: no-cache\r\nAccess-Control-Allow-Origin: *\r\nConnection: close\r\n\r\n"@
}

/// Opens a stream of server-sent events.
pub fn sse_open() -> (r: Vec<u8>)
    ensures
        r@ == encode_utf8(sse_head()),
{
    let mut r: Vec<u8> = Vec::new();
    r.extend_from_slice(
        "HTTP/1.1 200 OK\r\nContent-Type: text/event-stream\r\nCache-Control: no-cache\r\nAccess-Control-Allow-Origin: *\r\nConnection: close\r\n\r\n".as_bytes(),
    );
    assert(r@ =~= encode_utf8(sse_head()));
    r
}

/// One event of a stream.
pub open spec fn sse_frame(t: Tree) -> Seq<u8> {
    encode_utf8("data: "@ + json_text(t) + "\n\n"@)
}

/// One event of a stream. The value stands on one line, so the blank line that
/// ends the event is the only one.
pub fn sse_send(j: &Json) -> (r: Vec<u8>)
    ensures
        r@ == sse_frame(j.tree()),
        one_line(json_text(j.tree())),
{
    let mut s = "data: ".to_owned();
    s.append(print(j).as_str());
    s.append("\n\n");
    let mut r: Vec<u8> = Vec::new();
    r.extend_from_slice(s.as_str().as_bytes());
    assert(r@ =~= sse_frame(j.tree()));
    r
}

/// The end of a stream.
pub open spec fn sse_end() -> Seq<u8> {
    encode_utf8("data: [DONE]\n\n"@)
}

/// Ends a stream.
pub fn sse_done() -> (r: Vec<u8>)
    ensures
        r@ == sse_end(),
{
    let mut r: Vec<u8> = Vec::new();
    r.extend_from_slice("data: [DONE]\n\n".as_bytes());
    assert(r@ =~= sse_end());
    r
}

/// The body of a response ends it, and its head announces just as many bytes.
pub proof fn law_responses_announce_their_body(code: u16, ctype: Seq<char>, body: Seq<u8>)
    ensures
        ({
            let r = response_bytes(code, ctype, body);
            let n = r.len() - body.len();
            &&& n >= 0
            &&& r.skip(n) == body
            &&& exists|a: Seq<char>, z: Seq<char>|
                #![trigger a + z]
                r.take(n) == encode_utf8(
                    a + z,
                ) && z == "\r\nContent-Length: "@ + decimal(body.len())
                    + "\r\nAccess-Control-Allow-Origin: *\r\nConnection: close\r\n\r\n"@
        }),
{
    let r = response_bytes(code, ctype, body);
    let head = response_head(code, ctype, body.len());
    let n = r.len() - body.len();
    assert(r.skip(n) =~= body);
    assert(r.take(n) =~= encode_utf8(head));
    let a = "HTTP/1.1 "@ + decimal(code as nat) + " "@ + reason_of(code) + "\r\nContent-Type: "@
        + ctype;
    let z = "\r\nContent-Length: "@ + decimal(body.len())
        + "\r\nAccess-Control-Allow-Origin: *\r\nConnection: close\r\n\r\n"@;
    assert(a + z =~= head);
}

} // verus!
