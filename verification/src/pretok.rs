//! Request bodies and responses of the fork's direct-token chat endpoints.
//!
//! The request body is a normal chat-completions body in which message content
//! may be replaced with the direct-token parts form:
//!   content: [ { "type":"text", "text":"..." },
//!              { "type":"input_tokens", "tokens":[123, 456, ...] } ]
//! (or a whole-content array of raw ints). The server renders the chat template
//! around them and splices the raw ids into the prompt, so the heavy text has
//! already been tokenized locally.
//!
//! The network exchange itself belongs to the host; this module renders what
//! is sent and reads what comes back.
use vstd::prelude::*;
use vstd::string::*;
use crate::textutil::{
    bytes_eq, decimal_chars, lossy_string, push_char, push_chars, push_decimal_chars, str_chars,
    utf8_lossy,
};

verus! {

/// A message part for the direct-token body.
pub enum Part {
    /// Plain text to be tokenized by the server (use sparingly).
    Text(String),
    /// A locally-tokenized run of ids sent via the direct-token API.
    InputTokens(Vec<u32>),
}

/// A chat message to send through the direct-token endpoint.
pub struct Msg {
    pub role: String,
    pub parts: Vec<Part>,
}

/// A completed (non-stream) response.
pub struct Completion {
    pub status: u16,
    pub body: String,
}

// ---------------------------------------------------------------------------
// JSON rendering.
// ---------------------------------------------------------------------------

/// The JSON string escape of one character: quote, backslash, newline,
/// carriage return and tab are escaped, everything else is kept.
pub open spec fn escape_char(c: char) -> Seq<char> {
    if c == '"' {
        seq!['\\', '"']
    } else if c == '\\' {
        seq!['\\', '\\']
    } else if c == '\n' {
        seq!['\\', 'n']
    } else if c == '\r' {
        seq!['\\', 'r']
    } else if c == '\t' {
        seq!['\\', 't']
    } else {
        seq![c]
    }
}

/// The JSON string escape of `cs`, character by character.
pub open spec fn json_escape(cs: Seq<char>) -> Seq<char>
    decreases cs.len(),
{
    if cs.len() == 0 {
        seq![]
    } else {
        json_escape(cs.drop_last()) + escape_char(cs.last())
    }
}

/// Escape `s` for use inside a JSON string literal.
pub fn escape_json_string(s: &str) -> (out: String)
    ensures
        out@ == json_escape(s@),
{
    let cs = str_chars(s);
    let mut out = String::new();
    let mut i: usize = 0;
    while i < cs.len()
        invariant
            0 <= i <= cs@.len(),
            cs@ == s@,
            out@ == json_escape(cs@.subrange(0, i as int)),
        decreases cs@.len() - i,
    {
        let c = cs[i];
        if c == '"' {
            push_char(&mut out, '\\');
            push_char(&mut out, '"');
        } else if c == '\\' {
            push_char(&mut out, '\\');
            push_char(&mut out, '\\');
        } else if c == '\n' {
            push_char(&mut out, '\\');
            push_char(&mut out, 'n');
        } else if c == '\r' {
            push_char(&mut out, '\\');
            push_char(&mut out, 'r');
        } else if c == '\t' {
            push_char(&mut out, '\\');
            push_char(&mut out, 't');
        } else {
            push_char(&mut out, c);
        }
        assert(cs@.subrange(0, i + 1).drop_last() =~= cs@.subrange(0, i as int));
        assert(out@ =~= json_escape(cs@.subrange(0, i + 1)));
        i = i + 1;
    }
    assert(cs@.subrange(0, cs@.len() as int) =~= cs@);
    out
}

/// The char a one-character JSON escape `\x` stands for.
pub open spec fn unescape_char(x: char) -> Option<char> {
    if x == '"' {
        Some('"')
    } else if x == '\\' {
        Some('\\')
    } else if x == '/' {
        Some('/')
    } else if x == 'b' {
        Some('\u{8}')
    } else if x == 'f' {
        Some('\u{c}')
    } else if x == 'n' {
        Some('\n')
    } else if x == 'r' {
        Some('\r')
    } else if x == 't' {
        Some('\t')
    } else {
        None
    }
}

/// The value of `cs` read as the inside of a JSON string literal (RFC 8259)
/// written with one-character escapes; `None` when `cs` is not such a
/// literal body (an unescaped quote or control char, or a bad escape).
pub open spec fn json_unescape(cs: Seq<char>) -> Option<Seq<char>>
    decreases cs.len(),
{
    if cs.len() == 0 {
        Some(seq![])
    } else if cs[0] == '\\' {
        if cs.len() >= 2 && unescape_char(cs[1]) is Some {
            match json_unescape(cs.subrange(2, cs.len() as int)) {
                Some(r) => Some(seq![unescape_char(cs[1]).unwrap()] + r),
                None => None,
            }
        } else {
            None
        }
    } else if cs[0] == '"' || (cs[0] as u32) < 0x20 {
        None
    } else {
        match json_unescape(cs.drop_first()) {
            Some(r) => Some(seq![cs[0]] + r),
            None => None,
        }
    }
}

/// A control char (below U+0020) other than newline, carriage return and
/// tab: the escape leaves such a char raw.
pub open spec fn is_raw_control(c: char) -> bool {
    (c as u32) < 0x20 && c != '\n' && c != '\r' && c != '\t'
}

/// `cs` holds no char that the escape would leave raw as a control char.
pub open spec fn no_raw_controls(cs: Seq<char>) -> bool {
    forall|i: int| 0 <= i < cs.len() ==> !is_raw_control(#[trigger] cs[i])
}

proof fn lemma_json_escape_concat(a: Seq<char>, b: Seq<char>)
    ensures
        json_escape(a + b) == json_escape(a) + json_escape(b),
    decreases b.len(),
{
    if b.len() == 0 {
        assert(a + b =~= a);
        assert(json_escape(a) + json_escape(b) =~= json_escape(a));
    } else {
        assert((a + b).drop_last() =~= a + b.drop_last());
        lemma_json_escape_concat(a, b.drop_last());
        assert(json_escape(a) + json_escape(b.drop_last()) + escape_char(b.last()) =~= json_escape(
            a,
        ) + (json_escape(b.drop_last()) + escape_char(b.last())));
    }
}

/// The escaped text, between double quotes, is a valid JSON string literal
/// whose value is the input (given the input has no control chars the
/// escape leaves raw).
pub proof fn lemma_json_escape_roundtrip(s: Seq<char>)
    requires
        no_raw_controls(s),
    ensures
        json_unescape(json_escape(s)) == Some(s),
    decreases s.len(),
{
    if s.len() > 0 {
        let c = s[0];
        let rest = s.drop_first();
        assert(s =~= seq![c] + rest);
        assert(no_raw_controls(rest)) by {
            assert forall|i: int| 0 <= i < rest.len() implies !is_raw_control(#[trigger] rest[i]) by {
                assert(rest[i] == s[i + 1]);
            }
        }
        lemma_json_escape_roundtrip(rest);
        lemma_json_escape_concat(seq![c], rest);
        assert(json_escape(seq![c]) =~= escape_char(c)) by {
            assert(seq![c].drop_last() =~= Seq::<char>::empty());
            assert(json_escape(Seq::<char>::empty()) =~= Seq::<char>::empty());
            assert(seq![c].last() == c);
            assert(Seq::<char>::empty() + escape_char(c) =~= escape_char(c));
        }
        let e = escape_char(c) + json_escape(rest);
        assert(json_escape(s) == e);
        assert(!is_raw_control(s[0]));
        if escape_char(c).len() == 2 {
            assert(e.subrange(2, e.len() as int) =~= json_escape(rest));
        } else {
            assert(e.drop_first() =~= json_escape(rest));
        }
    }
}

/// Ids in decimal, separated by commas.
pub open spec fn ids_csv(ids: Seq<u32>) -> Seq<char>
    decreases ids.len(),
{
    if ids.len() == 0 {
        seq![]
    } else if ids.len() == 1 {
        decimal_chars(ids[0] as nat)
    } else {
        ids_csv(ids.drop_last()) + seq![','] + decimal_chars(ids.last() as nat)
    }
}

/// Append `ids` in decimal, separated by commas.
fn push_ids_csv(out: &mut String, ids: &[u32])
    ensures
        final(out)@ == old(out)@ + ids_csv(ids@),
{
    let mut i: usize = 0;
    while i < ids.len()
        invariant
            0 <= i <= ids@.len(),
            out@ == old(out)@ + ids_csv(ids@.subrange(0, i as int)),
        decreases ids@.len() - i,
    {
        let ghost before = out@;
        if i > 0 {
            push_char(out, ',');
        }
        push_decimal_chars(out, ids[i] as u64);
        proof {
            let pre = ids@.subrange(0, i + 1);
            assert(pre.drop_last() =~= ids@.subrange(0, i as int));
            if i == 0 {
                assert(ids@.subrange(0, i as int) =~= seq![]);
                assert(ids_csv(ids@.subrange(0, i as int)) =~= seq![]);
            }
        }
        assert(out@ =~= old(out)@ + ids_csv(ids@.subrange(0, i + 1)));
        i = i + 1;
    }
    assert(ids@.subrange(0, ids@.len() as int) =~= ids@);
}

/// The JSON object of one message part.
pub open spec fn part_json(p: Part) -> Seq<char> {
    match p {
        Part::Text(t) => "{\"type\":\"text\",\"text\":\""@ + json_escape(t@) + "\"}"@,
        Part::InputTokens(ts) => "{\"type\":\"input_tokens\",\"tokens\":["@ + ids_csv(ts@) + "]}"@,
    }
}

/// Part objects separated by commas.
pub open spec fn parts_csv(parts: Seq<Part>) -> Seq<char>
    decreases parts.len(),
{
    if parts.len() == 0 {
        seq![]
    } else if parts.len() == 1 {
        part_json(parts[0])
    } else {
        parts_csv(parts.drop_last()) + seq![','] + part_json(parts.last())
    }
}

/// The JSON `content` of a message: a lone run of ids is sent as a plain
/// integer array (the server reads it as raw tokens); anything else as the
/// array of part objects.
pub open spec fn content_json(parts: Seq<Part>) -> Seq<char> {
    if parts.len() == 1 && parts[0] is InputTokens {
        "["@ + ids_csv(parts[0]->InputTokens_0@) + "]"@
    } else {
        "["@ + parts_csv(parts) + "]"@
    }
}

/// Append the JSON content of a message with `parts`.
pub fn render_parts(parts: &[Part], out: &mut String)
    ensures
        final(out)@ == old(out)@ + content_json(parts@),
{
    // If a message is a single InputTokens run, emit the whole content as an
    // int array (server treats array-of-int content as raw tokens).
    if parts.len() == 1 {
        if let Part::InputTokens(tokens) = &parts[0] {
            out.append("[");
            push_ids_csv(out, tokens.as_slice());
            out.append("]");
            return;
        }
    }
    // Otherwise render the parts-array JSON form.
    out.append("[");
    let ghost start = out@;
    let mut i: usize = 0;
    while i < parts.len()
        invariant
            0 <= i <= parts@.len(),
            out@ == start + parts_csv(parts@.subrange(0, i as int)),
        decreases parts@.len() - i,
    {
        let ghost before = out@;
        if i > 0 {
            push_char(out, ',');
        }
        let ghost mid = out@;
        match &parts[i] {
            Part::Text(t) => {
                out.append("{\"type\":\"text\",\"text\":\"");
                let esc = escape_json_string(t.as_str());
                out.append(esc.as_str());
                out.append("\"}");
            },
            Part::InputTokens(tokens) => {
                out.append("{\"type\":\"input_tokens\",\"tokens\":[");
                push_ids_csv(out, tokens.as_slice());
                out.append("]}");
            },
        }
        proof {
            assert(out@ =~= mid + part_json(parts@[i as int]));
            let pre = parts@.subrange(0, i + 1);
            assert(pre.drop_last() =~= parts@.subrange(0, i as int));
            if i == 0 {
                assert(parts@.subrange(0, i as int) =~= seq![]);
            }
        }
        assert(out@ =~= start + parts_csv(parts@.subrange(0, i + 1)));
        i = i + 1;
    }
    assert(parts@.subrange(0, parts@.len() as int) =~= parts@);
    out.append("]");
}


/// The JSON object of one message.
pub open spec fn message_json(m: Msg) -> Seq<char> {
    "{\"role\":\""@ + json_escape(m.role@) + "\",\"content\":"@ + content_json(m.parts@) + "}"@
}

/// Message objects separated by commas.
pub open spec fn messages_csv(msgs: Seq<Msg>) -> Seq<char>
    decreases msgs.len(),
{
    if msgs.len() == 0 {
        seq![]
    } else if msgs.len() == 1 {
        message_json(msgs[0])
    } else {
        messages_csv(msgs.drop_last()) + seq![','] + message_json(msgs.last())
    }
}

/// The JSON body of a direct-token chat request; `temperature` is the
/// rendered number.
pub open spec fn body_json(
    model: Seq<char>,
    msgs: Seq<Msg>,
    max_tokens: u32,
    temperature: Seq<char>,
    stream: bool,
) -> Seq<char> {
    "{\"model\":\""@ + json_escape(model) + "\",\"messages\":["@ + messages_csv(msgs)
        + "],\"max_tokens\":"@ + decimal_chars(max_tokens as nat) + ",\"temperature\":"@
        + temperature + ",\"stream\":"@ + (if stream {
        "true"@
    } else {
        "false"@
    }) + "}"@
}

/// Render the full JSON body for a direct-token request. `temperature` is
/// the decimal rendering of the sampling temperature, inserted as is.
pub fn render_body(
    model: &str,
    messages: &[Msg],
    max_tokens: u32,
    temperature: &str,
    stream: bool,
) -> (body: String)
    ensures
        body@ == body_json(model@, messages@, max_tokens, temperature@, stream),
{
    let mut body = String::new();
    body.append("{\"model\":\"");
    let esc = escape_json_string(model);
    body.append(esc.as_str());
    body.append("\",\"messages\":[");
    let ghost start = body@;
    let mut i: usize = 0;
    while i < messages.len()
        invariant
            0 <= i <= messages@.len(),
            body@ == start + messages_csv(messages@.subrange(0, i as int)),
        decreases messages@.len() - i,
    {
        if i > 0 {
            push_char(&mut body, ',');
        }
        let ghost mid = body@;
        let m = &messages[i];
        body.append("{\"role\":\"");
        let role = escape_json_string(m.role.as_str());
        body.append(role.as_str());
        body.append("\",\"content\":");
        render_parts(m.parts.as_slice(), &mut body);
        push_char(&mut body, '}');
        proof {
            assert("}"@ =~= seq!['}']) by {
                reveal_strlit("}");
            }
            assert(body@ =~= mid + message_json(messages@[i as int]));
            let pre = messages@.subrange(0, i + 1);
            assert(pre.drop_last() =~= messages@.subrange(0, i as int));
            if i == 0 {
                assert(messages@.subrange(0, i as int) =~= seq![]);
            }
        }
        assert(body@ =~= start + messages_csv(messages@.subrange(0, i + 1)));
        i = i + 1;
    }
    assert(messages@.subrange(0, messages@.len() as int) =~= messages@);
    body.append("],\"max_tokens\":");
    push_decimal_chars(&mut body, max_tokens as u64);
    body.append(",\"temperature\":");
    body.append(temperature);
    body.append(",\"stream\":");
    if stream {
        body.append("true");
    } else {
        body.append("false");
    }
    body.append("}");
    assert(body@ =~= body_json(model@, messages@, max_tokens, temperature@, stream));
    body
}

/// The JSON body of a token-count request.
pub open spec fn count_body_json(model: Seq<char>, tokens: Seq<u32>) -> Seq<char> {
    "{\"model\":\""@ + json_escape(model) + "\",\"input_tokens\":["@ + ids_csv(tokens) + "]}"@
}

/// Render the JSON body of a `/v1/chat/completions/input_tokens` request.
pub fn count_body(model: &str, tokens: &[u32]) -> (body: String)
    ensures
        body@ == count_body_json(model@, tokens@),
{
    let mut body = String::new();
    body.append("{\"model\":\"");
    let esc = escape_json_string(model);
    body.append(esc.as_str());
    body.append("\",\"input_tokens\":[");
    push_ids_csv(&mut body, tokens);
    body.append("]}");
    assert(body@ =~= count_body_json(model@, tokens@));
    body
}

/// The HTTP/1.1 POST request carrying `body` to `path` on `host:port`; the
/// `Content-Length` is the body's length in UTF-8 bytes. A dummy
/// `Authorization` header is sent (the server ignores it, but chat clients
/// set one).
pub open spec fn request_text(path: Seq<char>, host: Seq<char>, port: u16, body: Seq<char>) -> Seq<
    char,
> {
    "POST "@ + path + " HTTP/1.1\r\nHost: "@ + host + ":"@ + decimal_chars(port as nat)
        + "\r\nContent-Type: application/json\r\nAuthorization: Bearer local-keyless\r\nConnection: close\r\nContent-Length: "@
        + decimal_chars(vstd::utf8::encode_utf8(body).len()) + "\r\n\r\n"@ + body
}

/// Render the HTTP request that POSTs `body` to `path` on `host:port`.
pub fn render_request(path: &str, host: &str, port: u16, body: &str) -> (req: String)
    ensures
        req@ == request_text(path@, host@, port, body@),
{
    let mut req = String::new();
    req.append("POST ");
    req.append(path);
    req.append(" HTTP/1.1\r\nHost: ");
    req.append(host);
    req.append(":");
    push_decimal_chars(&mut req, port as u64);
    req.append(
        "\r\nContent-Type: application/json\r\nAuthorization: Bearer local-keyless\r\nConnection: close\r\nContent-Length: ",
    );
    let body_len = body.as_bytes().len();
    push_decimal_chars(&mut req, body_len as u64);
    req.append("\r\n\r\n");
    req.append(body);
    assert(req@ =~= request_text(path@, host@, port, body@));
    req
}

/// The user message of a direct-token request: the prompt travels only as
/// its locally computed ids, so the server does not tokenize it again.
pub fn user_message(ids: Vec<u32>) -> (m: Msg)
    ensures
        m.role@ == "user"@,
        m.parts@ == seq![Part::InputTokens(ids)],
{
    let role = String::from_str("user");
    let mut parts: Vec<Part> = Vec::new();
    parts.push(Part::InputTokens(ids));
    Msg { role, parts }
}


// ---------------------------------------------------------------------------
// Reading responses.
// ---------------------------------------------------------------------------

/// `pat` occurs in `s` at `i`.
pub open spec fn occurs_at<T>(s: Seq<T>, pat: Seq<T>, i: int) -> bool {
    0 <= i && i + pat.len() <= s.len() && s.subrange(i, i + pat.len()) == pat
}

/// `pat` occurs somewhere in `s`.
pub open spec fn occurs<T>(s: Seq<T>, pat: Seq<T>) -> bool {
    exists|i: int| occurs_at(s, pat, i)
}

/// The first position at or after `i` where `pat` occurs in `s`.
pub open spec fn find_from<T>(s: Seq<T>, pat: Seq<T>, i: int) -> Option<int>
    decreases s.len() + 1 - i,
{
    if i < 0 || i + pat.len() > s.len() {
        None
    } else if s.subrange(i, i + pat.len()) == pat {
        Some(i)
    } else {
        find_from(s, pat, i + 1)
    }
}

proof fn lemma_find_from<T>(s: Seq<T>, pat: Seq<T>, i: int)
    requires
        0 <= i,
    ensures
        find_from(s, pat, i) matches Some(k) ==> i <= k && occurs_at(s, pat, k) && forall|j: int|
            i <= j < k ==> !occurs_at(s, pat, j),
        find_from(s, pat, i) is None ==> forall|j: int| i <= j ==> !occurs_at(s, pat, j),
    decreases s.len() + 1 - i,
{
    if i + pat.len() <= s.len() && s.subrange(i, i + pat.len()) != pat {
        lemma_find_from(s, pat, i + 1);
    }
}

/// Whether `pat` occurs in `s` at `i`.
fn chars_occur_at(s: &[char], pat: &[char], i: usize) -> (res: bool)
    ensures
        res == occurs_at(s@, pat@, i as int),
{
    if pat.len() > s.len() || i > s.len() - pat.len() {
        return false;
    }
    let mut k: usize = 0;
    while k < pat.len()
        invariant
            0 <= k <= pat@.len(),
            i + pat@.len() <= s@.len(),
            s@.len() <= usize::MAX,
            forall|j: int| 0 <= j < k ==> s@[i + j] == pat@[j],
        decreases pat@.len() - k,
    {
        if s[i + k] != pat[k] {
            assert(s@.subrange(i as int, i + pat@.len())[k as int] != pat@[k as int]);
            return false;
        }
        k = k + 1;
    }
    assert(s@.subrange(i as int, i + pat@.len()) =~= pat@);
    true
}

/// The first position at or after `i` where `pat` occurs in `s`.
fn find_chars(s: &[char], pat: &[char], i: usize) -> (res: Option<usize>)
    ensures
        res matches Some(k) ==> find_from(s@, pat@, i as int) == Some(k as int),
        res is None ==> find_from(s@, pat@, i as int) is None,
{
    if pat.len() > s.len() {
        return None;
    }
    let last = s.len() - pat.len();
    let mut k: usize = i;
    while k <= last
        invariant
            i <= k,
            last + pat@.len() == s@.len(),
            find_from(s@, pat@, i as int) == find_from(s@, pat@, k as int),
        decreases last + 1 - k,
    {
        if chars_occur_at(s, pat, k) {
            return Some(k);
        }
        if k == last {
            assert(find_from(s@, pat@, k + 1) is None);
            return None;
        }
        k = k + 1;
    }
    None
}

/// Whether `pat` occurs anywhere in `s`.
fn bytes_occur(s: &[u8], pat: &[u8]) -> (res: bool)
    ensures
        res == occurs(s@, pat@),
{
    if pat.len() > s.len() {
        return false;
    }
    let last = s.len() - pat.len();
    let mut k: usize = 0;
    while k <= last
        invariant
            last + pat@.len() == s@.len(),
            s@.len() <= usize::MAX,
            k <= last,
            forall|j: int| 0 <= j < k ==> !occurs_at(s@, pat@, j),
        decreases last + 1 - k,
    {
        if bytes_eq(vstd::slice::slice_subrange(s, k, k + pat.len()), pat) {
            assert(occurs_at(s@, pat@, k as int));
            return true;
        }
        assert(!occurs_at(s@, pat@, k as int));
        if k == last {
            assert forall|j: int| !occurs_at(s@, pat@, j) by {
                if 0 <= j <= k {
                }
            }
            return false;
        }
        k = k + 1;
    }
    false
}

/// ASCII lower case of a byte.
pub open spec fn ascii_lower(b: u8) -> u8 {
    if 65 <= b && b <= 90 {
        (b + 32) as u8
    } else {
        b
    }
}

/// The bytes of `s` in ASCII lower case.
fn ascii_lowercase_bytes(s: &[u8]) -> (out: Vec<u8>)
    ensures
        out@ == s@.map_values(|b: u8| ascii_lower(b)),
{
    let mut out: Vec<u8> = Vec::new();
    let mut i: usize = 0;
    while i < s.len()
        invariant
            0 <= i <= s@.len(),
            out@ == s@.subrange(0, i as int).map_values(|b: u8| ascii_lower(b)),
        decreases s@.len() - i,
    {
        let b = s[i];
        let l: u8 = if 65 <= b && b <= 90 {
            b + 32
        } else {
            b
        };
        out.push(l);
        i = i + 1;
        assert(out@ =~= s@.subrange(0, i as int).map_values(|b: u8| ascii_lower(b)));
    }
    assert(s@.subrange(0, s@.len() as int) =~= s@);
    out
}

/// Whether a response read so far is complete enough to stop reading: its
/// headers are in (a blank line has been seen), and either they announce no
/// chunked or length-delimited body, or the body is an event stream. Header
/// names and values are matched case-insensitively on the lossily decoded
/// response.
pub open spec fn spec_stop_reading(raw: Seq<u8>) -> bool {
    let lower = vstd::utf8::encode_utf8(utf8_lossy(raw)).map_values(|b: u8| ascii_lower(b));
    &&& occurs(raw, "\r\n\r\n".spec_bytes())
    &&& (!(occurs(lower, "transfer-encoding: chunked".spec_bytes()) || occurs(
        lower,
        "content-length".spec_bytes(),
    )) || occurs(lower, "text/event-stream".spec_bytes()))
}

/// Decide, after a read, whether the response has been read far enough.
pub fn stop_reading(raw: &[u8]) -> (stop: bool)
    ensures
        stop == spec_stop_reading(raw@),
{
    if !bytes_occur(raw, "\r\n\r\n".as_bytes()) {
        return false;
    }
    let head = lossy_string(raw);
    let lower = ascii_lowercase_bytes(head.as_str().as_bytes());
    let has_encoding = bytes_occur(lower.as_slice(), "transfer-encoding: chunked".as_bytes())
        || bytes_occur(lower.as_slice(), "content-length".as_bytes());
    if !has_encoding {
        return true;
    }
    bytes_occur(lower.as_slice(), "text/event-stream".as_bytes())
}


/// Unicode `White_Space`, the whitespace of `char::is_whitespace`.
pub open spec fn is_ws(c: char) -> bool {
    let u = c as u32;
    (9 <= u && u <= 13) || u == 32 || u == 0x85 || u == 0xA0 || u == 0x1680 || (0x2000 <= u && u
        <= 0x200A) || u == 0x2028 || u == 0x2029 || u == 0x202F || u == 0x205F || u == 0x3000
}

fn is_ws_exec(c: char) -> (res: bool)
    ensures
        res == is_ws(c),
{
    let u = c as u32;
    (9 <= u && u <= 13) || u == 32 || u == 0x85 || u == 0xA0 || u == 0x1680 || (0x2000 <= u && u
        <= 0x200A) || u == 0x2028 || u == 0x2029 || u == 0x202F || u == 0x205F || u == 0x3000
}

/// The first index at or after `i` holding a non-whitespace char (or the end).
pub open spec fn skip_ws(cs: Seq<char>, i: int) -> int
    decreases cs.len() - i,
{
    if i >= cs.len() {
        cs.len() as int
    } else if is_ws(cs[i]) {
        skip_ws(cs, i + 1)
    } else {
        i
    }
}

/// The first index at or after `i` holding a whitespace char (or the end).
pub open spec fn skip_word(cs: Seq<char>, i: int) -> int
    decreases cs.len() - i,
{
    if i >= cs.len() {
        cs.len() as int
    } else if !is_ws(cs[i]) {
        skip_word(cs, i + 1)
    } else {
        i
    }
}

/// The end of the line starting at `i`: the first `\n` at or after `i`, or
/// the end.
pub open spec fn line_end(cs: Seq<char>, i: int) -> int
    decreases cs.len() - i,
{
    if i >= cs.len() {
        cs.len() as int
    } else if cs[i] == '\n' {
        i
    } else {
        line_end(cs, i + 1)
    }
}

/// The second whitespace-separated word of `cs`, if it has one.
pub open spec fn second_word(cs: Seq<char>) -> Option<Seq<char>> {
    let a = skip_ws(cs, 0);
    let b = skip_word(cs, a);
    let c = skip_ws(cs, b);
    let d = skip_word(cs, c);
    if c < cs.len() {
        Some(cs.subrange(c, d))
    } else {
        None
    }
}

/// Every char of `d` is an ASCII digit.
pub open spec fn all_digits(d: Seq<char>) -> bool {
    forall|i: int| 0 <= i < d.len() ==> '0' <= #[trigger] d[i] && d[i] <= '9'
}

/// The value of a string of ASCII digits.
pub open spec fn digits_value(d: Seq<char>) -> nat
    decreases d.len(),
{
    if d.len() == 0 {
        0
    } else {
        digits_value(d.drop_last()) * 10 + (d.last() as nat - '0' as nat) as nat
    }
}

/// What `str::parse` makes of `cs` as an unsigned integer no larger than
/// `max`: an optional `+` then one or more ASCII digits, in range.
pub open spec fn parse_uint(cs: Seq<char>, max: nat) -> Option<nat> {
    let d = if cs.len() > 0 && cs[0] == '+' {
        cs.drop_first()
    } else {
        cs
    };
    if d.len() == 0 || !all_digits(d) {
        None
    } else if digits_value(d) <= max {
        Some(digits_value(d))
    } else {
        None
    }
}

/// A longer digit string is worth at least as much as its prefix.
proof fn lemma_digits_value_prefix(d: Seq<char>, k: int)
    requires
        0 <= k <= d.len(),
        all_digits(d),
    ensures
        digits_value(d.subrange(0, k)) <= digits_value(d),
    decreases d.len(),
{
    if k < d.len() {
        assert(d.drop_last().subrange(0, k) =~= d.subrange(0, k));
        lemma_digits_value_prefix(d.drop_last(), k);
    } else {
        assert(d.subrange(0, k) =~= d);
    }
}

/// Parse `cs[from..to]` as an unsigned integer no larger than `max`.
fn parse_uint_exec(cs: &[char], from: usize, to: usize, max: u64) -> (res: Option<u64>)
    requires
        from <= to <= cs@.len(),
    ensures
        res matches Some(v) ==> parse_uint(cs@.subrange(from as int, to as int), max as nat)
            == Some(v as nat),
        res is None ==> parse_uint(cs@.subrange(from as int, to as int), max as nat) is None,
{
    let ghost whole = cs@.subrange(from as int, to as int);
    let mut start = from;
    if from < to && cs[from] == '+' {
        start = from + 1;
    }
    let ghost d = cs@.subrange(start as int, to as int);
    assert(d =~= (if whole.len() > 0 && whole[0] == '+' {
        whole.drop_first()
    } else {
        whole
    }));
    assert(parse_uint(whole, max as nat) == (if d.len() == 0 || !all_digits(d) {
        None
    } else if digits_value(d) <= max as nat {
        Some(digits_value(d))
    } else {
        None
    }));
    if start == to {
        return None;
    }
    let mut v: u64 = 0;
    let mut i: usize = start;
    while i < to
        invariant
            start <= i <= to,
            to <= cs@.len(),
            d == cs@.subrange(start as int, to as int),
            start < to,
            parse_uint(cs@.subrange(from as int, to as int), max as nat) == (if d.len() == 0
                || !all_digits(d) {
                None
            } else if digits_value(d) <= max as nat {
                Some(digits_value(d))
            } else {
                None
            }),
            all_digits(cs@.subrange(start as int, i as int)),
            v as nat == digits_value(cs@.subrange(start as int, i as int)),
            v <= max,
        decreases to - i,
    {
        let c = cs[i];
        let ghost pre = cs@.subrange(start as int, i + 1);
        assert(pre.drop_last() =~= cs@.subrange(start as int, i as int));
        if c < '0' || c > '9' {
            assert(!all_digits(d)) by {
                assert(d[i - start] == c);
            }
            return None;
        }
        let digit: u64 = (c as u32 - '0' as u32) as u64;
        let nv: u128 = (v as u128) * 10 + (digit as u128);
        assert(all_digits(pre));
        if nv > max as u128 {
            proof {
                assert(d.subrange(0, i + 1 - start) =~= pre);
                if all_digits(d) {
                    lemma_digits_value_prefix(d, i + 1 - start);
                }
            }
            return None;
        }
        v = nv as u64;
        i = i + 1;
    }
    assert(cs@.subrange(start as int, i as int) =~= d);
    Some(v)
}

/// The status of an HTTP response head: the second word of its first line,
/// parsed as a `u16`, or 0 when that fails.
pub open spec fn status_of(head: Seq<char>) -> u16 {
    match second_word(head.subrange(0, line_end(head, 0))) {
        Some(w) => match parse_uint(w, 65535) {
            Some(v) => v as u16,
            None => 0,
        },
        None => 0,
    }
}

/// The body of an HTTP response: everything after the first blank line, or
/// the whole text when there is none.
pub open spec fn body_of(head: Seq<char>) -> Seq<char> {
    match find_from(head, "\r\n\r\n"@, 0) {
        Some(i) => head.subrange(i + 4, head.len() as int),
        None => head,
    }
}

/// Index of the first char at or after `i` for which `p` holds, scanning
/// `cs` (the end when none does).
fn scan_exec(cs: &[char], i: usize, want_ws: bool) -> (k: usize)
    requires
        i <= cs@.len(),
    ensures
        i <= k <= cs@.len(),
        want_ws ==> k == skip_word(cs@, i as int),
        !want_ws ==> k == skip_ws(cs@, i as int),
{
    let mut k = i;
    while k < cs.len() && is_ws_exec(cs[k]) != want_ws
        invariant
            i <= k <= cs@.len(),
            want_ws ==> skip_word(cs@, i as int) == skip_word(cs@, k as int),
            !want_ws ==> skip_ws(cs@, i as int) == skip_ws(cs@, k as int),
        decreases cs@.len() - k,
    {
        k = k + 1;
    }
    k
}

/// Collect `cs[from..to]` into a string.
fn string_of(cs: &[char], from: usize, to: usize) -> (s: String)
    requires
        from <= to <= cs@.len(),
    ensures
        s@ == cs@.subrange(from as int, to as int),
{
    let mut s = String::new();
    push_chars(&mut s, vstd::slice::slice_subrange(cs, from, to));
    s
}

/// Parse the HTTP response read into `raw`: its status (0 when the status
/// line does not parse) and its body, both read from the lossily decoded
/// text.
pub fn parse_response(raw: &[u8]) -> (res: (u16, String))
    ensures
        res.0 == status_of(utf8_lossy(raw@)),
        res.1@ == body_of(utf8_lossy(raw@)),
{
    let head = lossy_string(raw);
    let cs = str_chars(head.as_str());
    let ghost h = cs@;
    // The first line ends at the first newline.
    let mut e: usize = 0;
    while e < cs.len() && cs[e] != '\n'
        invariant
            e <= cs@.len(),
            line_end(h, 0) == line_end(h, e as int),
            h == cs@,
        decreases cs@.len() - e,
    {
        e = e + 1;
    }
    let line = vstd::slice::slice_subrange(cs.as_slice(), 0, e);
    let ghost l = line@;
    assert(l == h.subrange(0, line_end(h, 0)));
    let a = scan_exec(line, 0, false);
    let b = scan_exec(line, a, true);
    let c = scan_exec(line, b, false);
    let d = scan_exec(line, c, true);
    proof {
        if c < l.len() {
            assert(skip_word(l, c as int) <= l.len()) by {
                lemma_skip_bounds(l, c as int);
            }
        }
    }
    let status: u16 = if c < line.len() {
        match parse_uint_exec(line, c, d, 65535) {
            Some(v) => v as u16,
            None => 0,
        }
    } else {
        0
    };
    let sep = str_chars("\r\n\r\n");
    let body = match find_chars(cs.as_slice(), sep.as_slice(), 0) {
        Some(i) => {
            proof {
                lemma_find_from(h, sep@, 0);
                reveal_strlit("\r\n\r\n");
            }
            string_of(cs.as_slice(), i + 4, cs.len())
        },
        None => head,
    };
    (status, body)
}

proof fn lemma_skip_bounds(cs: Seq<char>, i: int)
    requires
        0 <= i <= cs.len(),
    ensures
        i <= skip_word(cs, i) <= cs.len(),
        i <= skip_ws(cs, i) <= cs.len(),
    decreases cs.len() - i,
{
    if i < cs.len() {
        lemma_skip_bounds(cs, i + 1);
    }
}


/// One past the last non-whitespace char of `cs` before `j` (0 when none).
pub open spec fn rtrim_end(cs: Seq<char>, j: int) -> int
    decreases j,
{
    if j <= 0 {
        0
    } else if is_ws(cs[j - 1]) {
        rtrim_end(cs, j - 1)
    } else {
        j
    }
}

/// `cs` without leading and trailing whitespace.
pub open spec fn trim(cs: Seq<char>) -> Seq<char> {
    let a = skip_ws(cs, 0);
    let b = rtrim_end(cs, cs.len() as int);
    if a < b {
        cs.subrange(a, b)
    } else {
        seq![]
    }
}

/// The first index at or after `i` holding `x` or `y`.
pub open spec fn find_any(cs: Seq<char>, x: char, y: char, i: int) -> Option<int>
    decreases cs.len() - i,
{
    if i < 0 || i >= cs.len() {
        None
    } else if cs[i] == x || cs[i] == y {
        Some(i)
    } else {
        find_any(cs, x, y, i + 1)
    }
}

/// The token count in a `/v1/chat/completions/input_tokens` reply: the
/// number after the first `"input_tokens"` key's colon, up to the next `,` or
/// `}`, trimmed and parsed as a `u64`.
pub open spec fn spec_parse_input_tokens(body: Seq<char>) -> Option<u64> {
    let key = "\"input_tokens\""@;
    match find_from(body, key, 0) {
        None => None,
        Some(idx) => {
            let rest = body.subrange(idx + key.len(), body.len() as int);
            match find_from(rest, seq![':'], 0) {
                None => None,
                Some(c) => {
                    let start = c + 1;
                    let end = match find_any(rest, ',', '}', start) {
                        Some(e) => e,
                        None => rest.len() as int,
                    };
                    match parse_uint(trim(rest.subrange(start, end)), u64::MAX as nat) {
                        Some(v) => Some(v as u64),
                        None => None,
                    }
                },
            }
        },
    }
}

proof fn lemma_rtrim_bounds(cs: Seq<char>, j: int)
    requires
        0 <= j <= cs.len(),
    ensures
        0 <= rtrim_end(cs, j) <= j,
        rtrim_end(cs, j) > 0 ==> !is_ws(cs[rtrim_end(cs, j) - 1]),
        forall|k: int| rtrim_end(cs, j) <= k < j ==> is_ws(cs[k]),
    decreases j,
{
    if j > 0 && is_ws(cs[j - 1]) {
        lemma_rtrim_bounds(cs, j - 1);
    }
}

proof fn lemma_skip_ws_stops(cs: Seq<char>, i: int)
    requires
        0 <= i <= cs.len(),
    ensures
        forall|k: int| i <= k < skip_ws(cs, i) ==> is_ws(cs[k]),
        skip_ws(cs, i) < cs.len() ==> !is_ws(cs[skip_ws(cs, i)]),
    decreases cs.len() - i,
{
    if i < cs.len() && is_ws(cs[i]) {
        lemma_skip_ws_stops(cs, i + 1);
    }
}

/// Parse the token count out of a `/v1/chat/completions/input_tokens` reply.
pub fn parse_input_tokens(body: &str) -> (res: Option<u64>)
    ensures
        res == spec_parse_input_tokens(body@),
{
    let cs = str_chars(body);
    let key = str_chars("\"input_tokens\"");
    let idx = match find_chars(cs.as_slice(), key.as_slice(), 0) {
        Some(i) => i,
        None => return None,
    };
    proof {
        lemma_find_from(cs@, key@, 0);
    }
    let cl = cs.len();
    let kl = key.len();
    assert(idx + kl <= cl);
    let rest = vstd::slice::slice_to_vec(
        vstd::slice::slice_subrange(cs.as_slice(), idx + key.len(), cs.len()),
    );
    let colon = str_chars(":");
    proof {
        reveal_strlit(":");
        assert(colon@ =~= seq![':']);
    }
    let c = match find_chars(rest.as_slice(), colon.as_slice(), 0) {
        Some(c) => c,
        None => return None,
    };
    proof {
        lemma_find_from(rest@, colon@, 0);
    }
    let start = c + 1;
    // The value ends at the next ',' or '}' (or the end).
    let mut end = start;
    while end < rest.len() && rest[end] != ',' && rest[end] != '}'
        invariant
            start <= end <= rest@.len(),
            find_any(rest@, ',', '}', start as int) == find_any(rest@, ',', '}', end as int),
        decreases rest@.len() - end,
    {
        end = end + 1;
    }
    let ghost slice = rest@.subrange(start as int, end as int);
    let value = vstd::slice::slice_to_vec(vstd::slice::slice_subrange(rest.as_slice(), start, end));
    // Trim whitespace on both sides.
    let mut a: usize = 0;
    while a < value.len() && is_ws_exec(value[a])
        invariant
            a <= value@.len(),
            skip_ws(value@, 0) == skip_ws(value@, a as int),
        decreases value@.len() - a,
    {
        a = a + 1;
    }
    let mut b: usize = value.len();
    while b > 0 && is_ws_exec(value[b - 1])
        invariant
            b <= value@.len(),
            rtrim_end(value@, value@.len() as int) == rtrim_end(value@, b as int),
        decreases b,
    {
        b = b - 1;
    }
    proof {
        assert(value@ == slice);
        lemma_skip_ws_stops(value@, 0);
        lemma_rtrim_bounds(value@, value@.len() as int);
    }
    if a < b {
        match parse_uint_exec(value.as_slice(), a, b, u64::MAX) {
            Some(v) => Some(v),
            None => None,
        }
    } else {
        proof {
            assert(trim(value@) =~= seq![]);
            assert(parse_uint(seq![], u64::MAX as nat) is None);
        }
        None
    }
}

/// The decimal rendering of `n` is a non-empty string of digits worth `n`.
proof fn lemma_decimal_chars_value(n: nat)
    ensures
        decimal_chars(n).len() > 0,
        all_digits(decimal_chars(n)),
        digits_value(decimal_chars(n)) == n,
    decreases n,
{
    let c = ((48 + n % 10) as u8) as char;
    assert(((48 + n % 10) as u8) as int == 48 + n % 10);
    assert(c as nat == 48 + n % 10);
    assert('0' as nat == 48);
    assert(n / 10 * 10 + n % 10 == n) by (nonlinear_arith);
    if n < 10 {
        assert(decimal_chars(n) =~= seq![c]);
        assert(decimal_chars(n).drop_last() =~= Seq::<char>::empty());
        assert(decimal_chars(n).last() == c);
        assert(digits_value(Seq::<char>::empty()) == 0);
        assert(digits_value(decimal_chars(n)) == 0 * 10 + (c as nat - '0' as nat) as nat);
    } else {
        lemma_decimal_chars_value(n / 10);
        let d = decimal_chars(n / 10);
        assert(decimal_chars(n) =~= d.push(c));
        assert(decimal_chars(n).drop_last() =~= d);
        assert(decimal_chars(n).last() == c);
        assert(digits_value(decimal_chars(n)) == digits_value(d) * 10 + (c as nat - '0' as nat) as nat);
    }
}

proof fn lemma_find_any_at(cs: Seq<char>, x: char, y: char, i: int, e: int)
    requires
        0 <= i <= e < cs.len(),
        cs[e] == x || cs[e] == y,
        forall|k: int| i <= k < e ==> cs[k] != x && cs[k] != y,
    ensures
        find_any(cs, x, y, i) == Some(e),
    decreases e - i,
{
    if i < e {
        lemma_find_any_at(cs, x, y, i + 1, e);
    }
}

proof fn lemma_skip_ws_to(cs: Seq<char>, i: int, e: int)
    requires
        0 <= i <= e < cs.len(),
        !is_ws(cs[e]),
        forall|k: int| i <= k < e ==> is_ws(cs[k]),
    ensures
        skip_ws(cs, i) == e,
    decreases e - i,
{
    if i < e {
        lemma_skip_ws_to(cs, i + 1, e);
    }
}

proof fn lemma_rtrim_to(cs: Seq<char>, e: int, j: int)
    requires
        0 < e <= j <= cs.len(),
        !is_ws(cs[e - 1]),
        forall|k: int| e <= k < j ==> is_ws(cs[k]),
    ensures
        rtrim_end(cs, j) == e,
    decreases j - e,
{
    if e < j {
        lemma_rtrim_to(cs, e, j - 1);
    }
}

/// A reply without the quoted key `"input_tokens"` carries no count.
pub proof fn lemma_input_tokens_absent(body: Seq<char>)
    requires
        !occurs(body, "\"input_tokens\""@),
    ensures
        spec_parse_input_tokens(body) is None,
{
    let key = "\"input_tokens\""@;
    lemma_find_from(body, key, 0);
    if let Some(k) = find_from(body, key, 0) {
        assert(occurs_at(body, key, k));
    }
}

/// The first `"input_tokens"` key of `pre + key + tail` is the one after
/// `pre` when `pre + key` holds no earlier one.
proof fn lemma_first_key(pre: Seq<char>, tail: Seq<char>)
    requires
        forall|j: int| 0 <= j < pre.len() ==> !occurs_at(pre + "\"input_tokens\""@, "\"input_tokens\""@, j),
    ensures
        find_from(pre + "\"input_tokens\""@ + tail, "\"input_tokens\""@, 0) == Some(pre.len() as int),
{
    let key = "\"input_tokens\""@;
    let head = pre + key;
    let body = head + tail;
    let p = pre.len() as int;
    lemma_find_from(body, key, 0);
    assert(body.subrange(p, p + key.len()) =~= key);
    assert(occurs_at(body, key, p));
    assert forall|j: int| 0 <= j < p implies !occurs_at(body, key, j) by {
        assert(!occurs_at(head, key, j));
        assert(body.subrange(j, j + key.len()) =~= head.subrange(j, j + key.len()));
    }
}

/// What follows the key: a colon, the count with whitespace around it, and
/// a `,` or `}`.
proof fn lemma_count_value(ws1: Seq<char>, n: u64, ws2: Seq<char>, t: char, post: Seq<char>)
    requires
        forall|k: int| 0 <= k < ws1.len() ==> is_ws(#[trigger] ws1[k]),
        forall|k: int| 0 <= k < ws2.len() ==> is_ws(#[trigger] ws2[k]),
        t == ',' || t == '}',
    ensures
        ({
            let rest = seq![':'] + ws1 + decimal_chars(n as nat) + ws2 + seq![t] + post;
            let e: int = 1 + ws1.len() as int + decimal_chars(n as nat).len() + ws2.len();
            &&& find_from(rest, seq![':'], 0) == Some(0int)
            &&& find_any(rest, ',', '}', 1) == Some(e)
            &&& parse_uint(trim(rest.subrange(1, e)), u64::MAX as nat) == Some(n as nat)
        }),
{
    let d = decimal_chars(n as nat);
    lemma_decimal_chars_value(n as nat);
    let rest = seq![':'] + ws1 + d + ws2 + seq![t] + post;
    assert(rest.subrange(0, 1) =~= seq![':']);
    let a: int = 1 + ws1.len() as int;
    let b: int = a + d.len();
    let e: int = b + ws2.len();
    assert forall|k: int| 1 <= k < e implies rest[k] != ',' && rest[k] != '}' by {
        if k < a {
            assert(rest[k] == ws1[k - 1]);
            assert(is_ws(ws1[k - 1]));
        } else if k < b {
            assert(rest[k] == d[k - a]);
            assert('0' <= d[k - a] && d[k - a] <= '9');
        } else {
            assert(rest[k] == ws2[k - b]);
            assert(is_ws(ws2[k - b]));
        }
    }
    assert(rest[e] == t);
    lemma_find_any_at(rest, ',', '}', 1, e);
    let mid = rest.subrange(1, e);
    assert(mid =~= ws1 + d + ws2);
    let m1 = ws1.len() as int;
    let m2 = m1 + d.len();
    assert('0' <= d[0] && d[0] <= '9');
    assert('0' <= d[d.len() - 1] && d[d.len() - 1] <= '9');
    assert(mid[m1] == d[0]);
    assert(mid[m2 - 1] == d[d.len() - 1]);
    assert forall|k: int| 0 <= k < m1 implies is_ws(mid[k]) by {
        assert(mid[k] == ws1[k]);
    }
    assert forall|k: int| m2 <= k < mid.len() implies is_ws(mid[k]) by {
        assert(mid[k] == ws2[k - m2]);
    }
    lemma_skip_ws_to(mid, 0, m1);
    lemma_rtrim_to(mid, m2, mid.len() as int);
    assert(trim(mid) =~= d);
}

/// A count is read back exactly as it was written: a reply whose first
/// `"input_tokens"` key is followed by a colon, the decimal count with any
/// whitespace around it, and then a `,` or `}`, yields that count.
pub proof fn lemma_input_tokens_roundtrip(
    pre: Seq<char>,
    ws1: Seq<char>,
    n: u64,
    ws2: Seq<char>,
    t: char,
    post: Seq<char>,
)
    requires
        forall|j: int| 0 <= j < pre.len() ==> !occurs_at(pre + "\"input_tokens\""@, "\"input_tokens\""@, j),
        forall|k: int| 0 <= k < ws1.len() ==> is_ws(#[trigger] ws1[k]),
        forall|k: int| 0 <= k < ws2.len() ==> is_ws(#[trigger] ws2[k]),
        t == ',' || t == '}',
    ensures
        spec_parse_input_tokens(
            pre + "\"input_tokens\""@ + seq![':'] + ws1 + decimal_chars(n as nat) + ws2 + seq![t]
                + post,
        ) == Some(n),
{
    let key = "\"input_tokens\""@;
    let tail = seq![':'] + ws1 + decimal_chars(n as nat) + ws2 + seq![t] + post;
    let body = pre + key + tail;
    assert(body =~= pre + "\"input_tokens\""@ + seq![':'] + ws1 + decimal_chars(n as nat) + ws2
        + seq![t] + post);
    lemma_first_key(pre, tail);
    lemma_count_value(ws1, n, ws2, t, post);
    let p = pre.len() as int;
    assert(body.subrange(p + key.len(), body.len() as int) =~= tail);
}

/// The fields of `cs` between commas, in order (a single field when `cs`
/// holds no comma).
pub open spec fn comma_fields(cs: Seq<char>) -> Seq<Seq<char>>
    decreases cs.len(),
{
    if cs.len() == 0 {
        seq![seq![]]
    } else {
        let f = comma_fields(cs.drop_last());
        if cs.last() == ',' {
            f.push(seq![])
        } else {
            f.update(f.len() - 1, f.last().push(cs.last()))
        }
    }
}

proof fn lemma_comma_fields_nonempty(cs: Seq<char>)
    ensures
        comma_fields(cs).len() >= 1,
    decreases cs.len(),
{
    if cs.len() > 0 {
        lemma_comma_fields_nonempty(cs.drop_last());
    }
}

/// Text without commas extends the last field.
proof fn lemma_comma_fields_extend(a: Seq<char>, d: Seq<char>)
    requires
        forall|k: int| 0 <= k < d.len() ==> #[trigger] d[k] != ',',
    ensures
        comma_fields(a + d) == comma_fields(a).update(
            comma_fields(a).len() - 1,
            comma_fields(a).last() + d,
        ),
    decreases d.len(),
{
    lemma_comma_fields_nonempty(a);
    let f = comma_fields(a);
    if d.len() == 0 {
        assert(a + d =~= a);
        assert(f.last() + d =~= f.last());
        assert(f.update(f.len() - 1, f.last()) =~= f);
    } else {
        let d1 = d.drop_last();
        lemma_comma_fields_extend(a, d1);
        assert((a + d).drop_last() =~= a + d1);
        assert((a + d).last() == d.last());
        assert(f.last() + d1 + seq![d.last()] =~= f.last() + d);
        let g = f.update(f.len() - 1, f.last() + d1);
        assert(g.len() == f.len());
        assert(g.last() == f.last() + d1);
        assert(g.last().push(d.last()) =~= f.last() + d);
        assert(g.update(g.len() - 1, g.last().push(d.last())) =~= f.update(
            f.len() - 1,
            f.last() + d,
        ));
    }
}

/// Reading the rendered id list back: split at its commas, it has one field
/// per id, and each field is the id's value in decimal digits, for every id
/// in the whole `u32` range.
pub proof fn lemma_ids_csv_reads_back(ids: Seq<u32>)
    requires
        ids.len() > 0,
    ensures
        comma_fields(ids_csv(ids)).len() == ids.len(),
        forall|i: int|
            0 <= i < ids.len() ==> all_digits(#[trigger] comma_fields(ids_csv(ids))[i])
                && digits_value(comma_fields(ids_csv(ids))[i]) == ids[i] as nat,
    decreases ids.len(),
{
    let d = decimal_chars(ids.last() as nat);
    lemma_decimal_chars_value(ids.last() as nat);
    assert forall|k: int| 0 <= k < d.len() implies #[trigger] d[k] != ',' by {
        assert('0' <= d[k] && d[k] <= '9');
    }
    if ids.len() == 1 {
        lemma_comma_fields_extend(Seq::<char>::empty(), d);
        assert(Seq::<char>::empty() + d =~= d);
        assert(comma_fields(Seq::<char>::empty()) =~= seq![Seq::<char>::empty()]);
        assert(Seq::<char>::empty() + d =~= d);
        assert(ids.last() == ids[0]);
        assert(comma_fields(ids_csv(ids)) =~= seq![d]);
    } else {
        let pre = ids.drop_last();
        lemma_ids_csv_reads_back(pre);
        let a = ids_csv(pre) + seq![','];
        assert(ids_csv(ids) == a + d);
        lemma_comma_fields_extend(a, d);
        assert(a.drop_last() =~= ids_csv(pre));
        let f = comma_fields(ids_csv(pre));
        assert(comma_fields(a) == f.push(seq![]));
        assert(Seq::<char>::empty() + d =~= d);
        assert(comma_fields(ids_csv(ids)) =~= f.push(d));
        assert forall|i: int| 0 <= i < ids.len() implies all_digits(
            #[trigger] comma_fields(ids_csv(ids))[i],
        ) && digits_value(comma_fields(ids_csv(ids))[i]) == ids[i] as nat by {
            if i < pre.len() {
                assert(comma_fields(ids_csv(ids))[i] == f[i]);
                assert(pre[i] == ids[i]);
            } else {
                assert(comma_fields(ids_csv(ids))[i] == d);
            }
        }
    }
}

/// The request announces where it goes and how long its body is: it is a
/// `POST` of `path`, its `Host` header is the host, a colon and a run of
/// decimal digits worth the port, and it ends with `"Content-Length: "`, a run
/// of decimal digits worth the body's length in UTF-8 bytes, the blank line
/// and the body itself, for every port and body length.
pub proof fn lemma_request_host_and_length(path: Seq<char>, host: Seq<char>, port: u16, body: Seq<char>)
    ensures
        exists|dp: Seq<char>, mid: Seq<char>, d: Seq<char>|
            {
                &&& request_text(path, host, port, body) == "POST "@ + path + " HTTP/1.1\r\nHost: "@
                    + host + ":"@ + dp + "\r\n"@ + mid + "Content-Length: "@ + d + "\r\n\r\n"@
                    + body
                &&& dp.len() > 0
                &&& all_digits(dp)
                &&& digits_value(dp) == port
                &&& d.len() > 0
                &&& all_digits(d)
                &&& digits_value(d) == vstd::utf8::encode_utf8(body).len()
            },
{
    reveal_strlit("Content-Length: ");
    reveal_strlit("\r\n");
    reveal_strlit(
        "\r\nContent-Type: application/json\r\nAuthorization: Bearer local-keyless\r\nConnection: close\r\nContent-Length: ",
    );
    reveal_strlit("Content-Type: application/json\r\nAuthorization: Bearer local-keyless\r\nConnection: close\r\n");
    let n = vstd::utf8::encode_utf8(body).len();
    let d = decimal_chars(n);
    lemma_decimal_chars_value(n);
    let dp = decimal_chars(port as nat);
    lemma_decimal_chars_value(port as nat);
    let mid = "Content-Type: application/json\r\nAuthorization: Bearer local-keyless\r\nConnection: close\r\n"@;
    assert("\r\nContent-Type: application/json\r\nAuthorization: Bearer local-keyless\r\nConnection: close\r\nContent-Length: "@
        =~= "\r\n"@ + mid + "Content-Length: "@);
    assert(request_text(path, host, port, body) =~= "POST "@ + path + " HTTP/1.1\r\nHost: "@ + host
        + ":"@ + dp + "\r\n"@ + mid + "Content-Length: "@ + d + "\r\n\r\n"@ + body);
}

/// The request body carries the token budget: the message list closes,
/// then `"max_tokens":` and a run of decimal digits worth `max_tokens`, then
/// the temperature as given.
pub proof fn lemma_body_max_tokens(
    model: Seq<char>,
    msgs: Seq<Msg>,
    max_tokens: u32,
    temperature: Seq<char>,
    stream: bool,
)
    ensures
        exists|pre: Seq<char>, d: Seq<char>, post: Seq<char>|
            {
                &&& body_json(model, msgs, max_tokens, temperature, stream) == pre
                    + "],\"max_tokens\":"@ + d + ",\"temperature\":"@ + temperature + post
                &&& d.len() > 0
                &&& all_digits(d)
                &&& digits_value(d) == max_tokens
            },
{
    let d = decimal_chars(max_tokens as nat);
    lemma_decimal_chars_value(max_tokens as nat);
    let pre = "{\"model\":\""@ + json_escape(model) + "\",\"messages\":["@ + messages_csv(msgs);
    let body = body_json(model, msgs, max_tokens, temperature, stream);
    let k = pre.len() + "],\"max_tokens\":"@.len() + d.len() + ",\"temperature\":"@.len()
        + temperature.len();
    let post = body.subrange(k as int, body.len() as int);
    assert(body =~= pre + "],\"max_tokens\":"@ + d + ",\"temperature\":"@ + temperature + post);
}

proof fn lemma_skip_word_to(cs: Seq<char>, i: int, e: int)
    requires
        0 <= i <= e <= cs.len(),
        forall|k: int| i <= k < e ==> !is_ws(cs[k]),
        e == cs.len() || is_ws(cs[e]),
    ensures
        skip_word(cs, i) == e,
    decreases e - i,
{
    if i < e {
        lemma_skip_word_to(cs, i + 1, e);
    }
}

proof fn lemma_line_end_past(cs: Seq<char>, i: int, e: int)
    requires
        0 <= i <= e <= cs.len(),
        forall|k: int| i <= k < e ==> cs[k] != '\n',
    ensures
        e <= line_end(cs, i) <= cs.len(),
        line_end(cs, i) < cs.len() ==> cs[line_end(cs, i)] == '\n',
    decreases cs.len() - i,
{
    if i < cs.len() && cs[i] != '\n' {
        if i < e {
            lemma_line_end_past(cs, i + 1, e);
        } else {
            lemma_line_end_past(cs, i + 1, i + 1);
        }
    }
}

/// The status is read from the reply's first line: a version word, a space
/// and the status code in decimal, then the end of the text or whitespace,
/// give that code, for every `u16` code.
pub proof fn lemma_status_reads_back(version: Seq<char>, code: u16, tail: Seq<char>)
    requires
        version.len() > 0,
        forall|k: int| 0 <= k < version.len() ==> !is_ws(#[trigger] version[k]),
        tail.len() == 0 || is_ws(tail[0]),
    ensures
        status_of(version + seq![' '] + decimal_chars(code as nat) + tail) == code,
{
    let d = decimal_chars(code as nat);
    lemma_decimal_chars_value(code as nat);
    let all = version + seq![' '] + d + tail;
    let a = version.len() as int;
    let m = a + 1 + d.len();
    assert forall|k: int| 0 <= k < d.len() implies !is_ws(#[trigger] d[k]) && d[k] != '\n' by {
        assert('0' <= d[k] && d[k] <= '9');
    }
    assert forall|k: int| 0 <= k < m implies all[k] != '\n' by {
        if k < a {
            assert(all[k] == version[k]);
        } else if k > a {
            assert(all[k] == d[k - a - 1]);
        }
    }
    lemma_line_end_past(all, 0, m);
    let l = line_end(all, 0);
    let line = all.subrange(0, l);
    if l > m {
        assert(all[m] == tail[0]);
    }
    assert(m == line.len() || is_ws(line[m]));
    assert(!is_ws(line[0])) by {
        assert(line[0] == version[0]);
    }
    lemma_skip_ws_to(line, 0, 0);
    assert forall|k: int| 0 <= k < a implies !is_ws(line[k]) by {
        assert(line[k] == version[k]);
    }
    assert(line[a] == ' ');
    lemma_skip_word_to(line, 0, a);
    assert(line[a + 1] == d[0]);
    lemma_skip_ws_to(line, a, a + 1);
    assert forall|k: int| a + 1 <= k < m implies !is_ws(line[k]) by {
        assert(line[k] == d[k - a - 1]);
    }
    lemma_skip_word_to(line, a + 1, m);
    assert(line.subrange(a + 1, m) =~= d);
    assert(second_word(line) == Some(d));
    assert(d[0] != '+');
    assert(parse_uint(d, 65535) == Some(code as nat));
}

/// A reply's body is everything after its first blank line: when the reply
/// text is `head`, the blank line `"\r\n\r\n"` and `rest`, and no blank line
/// starts inside `head` (or straddles its end), the body is `rest`.
pub proof fn lemma_body_after_blank_line(head: Seq<char>, rest: Seq<char>)
    requires
        forall|j: int| 0 <= j < head.len() ==> !occurs_at(head + "\r\n\r\n"@, "\r\n\r\n"@, j),
    ensures
        body_of(head + "\r\n\r\n"@ + rest) == rest,
{
    reveal_strlit("\r\n\r\n");
    let sep = "\r\n\r\n"@;
    let hs = head + sep;
    let all = hs + rest;
    let p = head.len() as int;
    lemma_find_from(all, sep, 0);
    assert(all.subrange(p, p + sep.len()) =~= sep);
    assert(occurs_at(all, sep, p));
    assert forall|j: int| 0 <= j < p implies !occurs_at(all, sep, j) by {
        assert(!occurs_at(hs, sep, j));
        assert(all.subrange(j, j + sep.len()) =~= hs.subrange(j, j + sep.len()));
    }
    assert(find_from(all, sep, 0) == Some(p));
    assert(all.subrange(p + 4, all.len() as int) =~= rest);
}

/// A reply with no blank line is body throughout.
pub proof fn lemma_body_without_blank_line(text: Seq<char>)
    requires
        !occurs(text, "\r\n\r\n"@),
    ensures
        body_of(text) == text,
{
    lemma_find_from(text, "\r\n\r\n"@, 0);
    if let Some(k) = find_from(text, "\r\n\r\n"@, 0) {
        assert(occurs_at(text, "\r\n\r\n"@, k));
    }
}

/// What a token count request yields: the count, 0 when the reply carries
/// none, or an error naming any status other than 200 and the reply body.
pub open spec fn spec_count_result(status: u16, body: Seq<char>) -> Result<u64, Seq<char>> {
    if status != 200 {
        Err("count returned "@ + decimal_chars(status as nat) + ": "@ + body)
    } else {
        Ok(
            match spec_parse_input_tokens(body) {
                Some(n) => n,
                None => 0,
            },
        )
    }
}

/// Interpret the reply to a token count request.
pub fn count_result(status: u16, body: &str) -> (res: Result<u64, String>)
    ensures
        match spec_count_result(status, body@) {
            Ok(n) => res == Ok::<u64, String>(n),
            Err(msg) => res matches Err(e) && e@ == msg,
        },
{
    if status != 200 {
        let mut msg = String::from_str("count returned ");
        push_decimal_chars(&mut msg, status as u64);
        msg.append(": ");
        msg.append(body);
        return Err(msg);
    }
    // Response: {"input_tokens": N, ...}
    match parse_input_tokens(body) {
        Some(n) => Ok(n),
        None => Ok(0),
    }
}

} // verus!
