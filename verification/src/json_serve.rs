//! aircraft.json and stats.json over a local socket, so nothing is written to
//! disk for the station to read back. Plain HTTP/1.0, one document per request:
//! `GET /aircraft.json` and `GET /stats.json`.

use crate::text::{
    before, cut, decimal, is_space, is_word, law_cut_is_at_the_first, law_decimal_reads_back,
    law_words_are_set_apart, next_word, put_decimal, same, spelled, words, words_from,
};
use vstd::prelude::*;
use vstd::utf8::encode_utf8;

verus! {

/// The documents as they stand.
#[derive(Debug)]
pub struct Docs {
    pub aircraft: String,
    pub stats: String,
}

/// The documents as values.
pub struct Pages {
    pub aircraft: Seq<char>,
    pub stats: Seq<char>,
}

impl View for Docs {
    type V = Pages;

    open spec fn view(&self) -> Pages {
        Pages { aircraft: self.aircraft@, stats: self.stats@ }
    }
}

/// The document under a path.
pub open spec fn page_at(d: Pages, path: Seq<char>) -> Option<Seq<char>> {
    if path == "/aircraft.json"@ || path == "/data/aircraft.json"@ {
        Some(d.aircraft)
    } else if path == "/stats.json"@ || path == "/data/stats.json"@ {
        Some(d.stats)
    } else {
        None
    }
}

/// The document that a request line asks for: of a GET, the one under the path
/// before any query.
pub open spec fn asked(d: Pages, line: Seq<char>) -> Option<Seq<char>> {
    let w = words(line);
    if w.len() >= 2 && w[0] == "GET"@ {
        page_at(d, before(w[1], '?'))
    } else {
        None
    }
}

/// What ends a line of a head.
pub open spec fn line_end() -> Seq<char> {
    seq!['\r', '\n']
}

/// Lines, each with its end.
pub open spec fn lines(ls: Seq<Seq<char>>) -> Seq<char>
    decreases ls.len(),
{
    if ls.len() == 0 {
        Seq::empty()
    } else {
        lines(ls.drop_last()) + ls.last() + line_end()
    }
}

/// A response: the lines of its head, a blank line, and what it holds.
pub open spec fn answer(head: Seq<Seq<char>>, body: Seq<char>) -> Seq<char> {
    lines(head) + line_end() + body
}

/// The line that says how many bytes `body` has.
pub open spec fn length_line(body: Seq<char>) -> Seq<char> {
    "Content-Length: "@ + decimal(encode_utf8(body).len())
}

/// The lines of the head of the response to a request for `page`.
pub open spec fn head_of(page: Option<Seq<char>>) -> Seq<Seq<char>> {
    match page {
        Some(body) => if body.len() > 0 {
            seq![
                "HTTP/1.0 200 OK"@,
                "Content-Type: application/json"@,
                length_line(body),
                "Cache-Control: no-store"@,
                "Connection: close"@,
            ]
        } else {
            seq![
                "HTTP/1.0 503 Service Unavailable"@,
                length_line(Seq::empty()),
                "Connection: close"@,
            ]
        },
        None => seq!["HTTP/1.0 404 Not Found"@, length_line(Seq::empty()), "Connection: close"@],
    }
}

/// What the response to a request for `page` holds.
pub open spec fn body_of(page: Option<Seq<char>>) -> Seq<char> {
    match page {
        Some(body) => body,
        None => Seq::empty(),
    }
}

/// The response to a request line, headers and body.
pub open spec fn response(d: Pages, line: Seq<char>) -> Seq<char> {
    answer(head_of(asked(d, line)), body_of(asked(d, line)))
}

impl Default for Docs {
    fn default() -> (d: Self)
        ensures
            d@.aircraft == Seq::<char>::empty(),
            d@.stats == Seq::<char>::empty(),
    {
        let d: Docs = Docs { aircraft: String::new(), stats: String::new() };
        assert(d@.aircraft =~= Seq::<char>::empty());
        assert(d@.stats =~= Seq::<char>::empty());
        d
    }
}

impl Docs {
    /// The response body for a request line, or None for anything else.
    pub fn body(&self, request_line: &str) -> (b: Option<String>)
        ensures
            match b {
                Some(b) => asked(self@, request_line@) == Some(b@),
                None => asked(self@, request_line@) is None,
            },
    {
        let (verb, after): (&str, usize) = match next_word(request_line, 0) {
            Some((w, end)) => (w, end),
            None => return None,
        };
        let ghost rest = words_from(request_line@, after as int);
        assert(words(request_line@)[0] == verb@);
        if !same(verb, "GET") {
            return None;
        }
        let target: &str = match next_word(request_line, after) {
            Some((w, _)) => w,
            None => return None,
        };
        assert(rest[0] == target@);
        assert(words(request_line@)[1] == rest[0]);
        let path: &str = cut(target, '?');
        if same(path, "/aircraft.json") || same(path, "/data/aircraft.json") {
            Some(self.aircraft.clone())
        } else if same(path, "/stats.json") || same(path, "/data/stats.json") {
            Some(self.stats.clone())
        } else {
            None
        }
    }
}

/// Append a line to the head `out`, whose lines so far are `ls`.
fn put_line(out: &mut String, s: &str, Ghost(ls): Ghost<Seq<Seq<char>>>)
    requires
        old(out)@ == lines(ls),
    ensures
        final(out)@ == lines(ls.push(s@)),
{
    proof {
        reveal_strlit("\r\n");
        assert(ls.push(s@).drop_last() =~= ls);
    }
    out.append(s);
    out.append("\r\n");
    assert(out@ =~= lines(ls.push(s@)));
}

/// The line that says how many bytes `body` has.
fn length_of(body: &str) -> (s: String)
    ensures
        s@ == length_line(body@),
{
    let mut s: String = String::new();
    s.append("Content-Length: ");
    put_decimal(&mut s, body.as_bytes().len() as u64);
    assert(s@ =~= length_line(body@));
    s
}

/// The response for a request line, headers and body.
pub fn respond(docs: &Docs, request_line: &str) -> (r: String)
    ensures
        r@ == response(docs@, request_line@),
{
    let page: Option<String> = docs.body(request_line);
    let found: bool = page.is_some();
    let body: String = match page {
        Some(b) => b,
        None => String::new(),
    };
    let s: &str = body.as_str();
    let length: String = length_of(s);
    let mut r: String = String::new();
    let ghost mut ls = Seq::<Seq<char>>::empty();
    assert(r@ =~= lines(ls));
    assert(!found ==> s@ =~= Seq::<char>::empty());
    assert(s@.len() == 0 ==> s@ =~= Seq::<char>::empty());
    if found && s.unicode_len() > 0 {
        put_line(&mut r, "HTTP/1.0 200 OK", Ghost(ls));
        proof {
            ls = ls.push("HTTP/1.0 200 OK"@);
        }
        put_line(&mut r, "Content-Type: application/json", Ghost(ls));
        proof {
            ls = ls.push("Content-Type: application/json"@);
        }
        put_line(&mut r, length.as_str(), Ghost(ls));
        proof {
            ls = ls.push(length@);
        }
        put_line(&mut r, "Cache-Control: no-store", Ghost(ls));
        proof {
            ls = ls.push("Cache-Control: no-store"@);
        }
    } else {
        let status: &str = if found {
            "HTTP/1.0 503 Service Unavailable"
        } else {
            "HTTP/1.0 404 Not Found"
        };
        put_line(&mut r, status, Ghost(ls));
        proof {
            ls = ls.push(status@);
        }
        put_line(&mut r, length.as_str(), Ghost(ls));
        proof {
            ls = ls.push(length@);
        }
    }
    put_line(&mut r, "Connection: close", Ghost(ls));
    proof {
        ls = ls.push("Connection: close"@);
        assert(ls =~= head_of(asked(docs@, request_line@)));
        reveal_strlit("\r\n");
    }
    r.append("\r\n");
    r.append(s);
    assert(r@ =~= response(docs@, request_line@));
    r
}

/// A line ends at `k` in `r`, and the next is blank.
pub open spec fn blank_after(r: Seq<char>, k: int) -> bool {
    &&& 0 <= k
    &&& k + 4 <= r.len()
    &&& r.subrange(k, k + 4) == line_end() + line_end()
}

/// A line with something on it, on which no other begins.
pub open spec fn is_one_line(s: Seq<char>) -> bool {
    s.len() > 0 && !s.contains('\r')
}

/// The lines of a head leave no blank one between them.
proof fn lemma_lines(ls: Seq<Seq<char>>)
    requires
        forall|k: int| 0 <= k < ls.len() ==> is_one_line(#[trigger] ls[k]),
    ensures
        ls.len() > 0 ==> {
            &&& lines(ls).len() >= 3
            &&& lines(ls)[lines(ls).len() - 2] == '\r'
            &&& lines(ls)[lines(ls).len() - 1] == '\n'
        },
        forall|j: int|
            0 <= j < lines(ls).len() - 2 && #[trigger] lines(ls)[j] == '\r' ==> lines(ls)[j + 2] != '\r',
    decreases ls.len(),
{
    if ls.len() > 0 {
        let a = lines(ls.drop_last());
        let x = ls.last();
        let all = lines(ls);
        lemma_lines(ls.drop_last());
        assert(is_one_line(ls[ls.len() - 1]));
        assert(all =~= a + x + line_end());
        assert forall|j: int| 0 <= j < all.len() - 2 && #[trigger] all[j] == '\r' implies all[j + 2]
            != '\r' by {
            if j < a.len() {
                assert(a[j] == '\r');
                if j == a.len() - 2 {
                    assert(all[j + 2] == x[0]);
                    assert(x.contains(x[0]));
                } else if j < a.len() - 2 {
                    assert(all[j + 2] == a[j + 2]);
                }
            } else {
                assert(x.contains(x[j - a.len()]));
            }
        }
    }
}

spec fn clear_to(s: Seq<char>, n: int) -> bool
    decreases n,
{
    n <= 0 || s[n - 1] != '\r' && clear_to(s, n - 1)
}

proof fn lemma_clear(s: Seq<char>, n: int)
    requires
        clear_to(s, n),
    ensures
        forall|j: int| 0 <= j < n ==> s[j] != '\r',
    decreases n,
{
    if n > 0 {
        lemma_clear(s, n - 1);
    }
}

proof fn lemma_decimal_clear(n: nat)
    ensures
        !decimal(n).contains('\r'),
    decreases n,
{
    if n >= 10 {
        lemma_decimal_clear(n / 10);
        let a = decimal(n / 10);
        assert forall|j: int| 0 <= j < decimal(n).len() implies decimal(n)[j] != '\r' by {
            if j < a.len() {
                assert(a.contains(a[j]));
            }
        }
    }
}

/// Every line of a head is one line.
proof fn lemma_head(page: Option<Seq<char>>)
    ensures
        forall|k: int| 0 <= k < head_of(page).len() ==> is_one_line(#[trigger] head_of(page)[k]),
{
    reveal_with_fuel(clear_to, 34);
    reveal_strlit("HTTP/1.0 200 OK");
    lemma_clear("HTTP/1.0 200 OK"@, 15);
    reveal_strlit("HTTP/1.0 503 Service Unavailable");
    lemma_clear("HTTP/1.0 503 Service Unavailable"@, 32);
    reveal_strlit("HTTP/1.0 404 Not Found");
    lemma_clear("HTTP/1.0 404 Not Found"@, 22);
    reveal_strlit("Content-Type: application/json");
    lemma_clear("Content-Type: application/json"@, 30);
    reveal_strlit("Content-Length: ");
    lemma_clear("Content-Length: "@, 16);
    lemma_decimal_clear(encode_utf8(body_of(page)).len());
    reveal_strlit("Cache-Control: no-store");
    lemma_clear("Cache-Control: no-store"@, 23);
    reveal_strlit("Connection: close");
    lemma_clear("Connection: close"@, 17);
    let n = decimal(encode_utf8(body_of(page)).len());
    assert forall|j: int| 0 <= j < length_line(body_of(page)).len() implies length_line(
        body_of(page),
    )[j] != '\r' by {
        if j >= 16 {
            assert(n.contains(n[j - 16]));
        }
    }
    assert(body_of(page).len() == 0 ==> body_of(page) =~= Seq::<char>::empty());
}

/// Every response says what became of the request. Its first line is 200 for a
/// document that is there, 503 for one that is not there yet, and 404 for anything
/// else. After the first blank line comes the document, or nothing; the head says
/// how many bytes that is, and that the connection is closed. A document is named
/// as JSON that is not to be stored.
pub proof fn law_response_is_complete(d: Pages, line: Seq<char>)
    ensures
        ({
            let page = asked(d, line);
            let head = head_of(page);
            let end = lines(head).len() - 2;
            let r = response(d, line);
            &&& (head[0] + line_end()).is_prefix_of(r)
            &&& head[0] == match page {
                Some(body) => if body.len() > 0 {
                    "HTTP/1.0 200 OK"@
                } else {
                    "HTTP/1.0 503 Service Unavailable"@
                },
                None => "HTTP/1.0 404 Not Found"@,
            }
            &&& blank_after(r, end)
            &&& forall|j: int| j < end ==> !#[trigger] blank_after(r, j)
            &&& r.skip(end + 4) == body_of(page)
            &&& head.contains(length_line(body_of(page)))
            &&& head.contains("Connection: close"@)
            &&& body_of(page).len() > 0 ==> head.contains("Content-Type: application/json"@)
                && head.contains("Cache-Control: no-store"@)
        }),
{
    let page = asked(d, line);
    let head = head_of(page);
    let l = lines(head);
    let end = l.len() - 2;
    let r = response(d, line);
    lemma_head(page);
    lemma_lines(head);
    assert(r =~= l + line_end() + body_of(page));
    assert(r.subrange(end, end + 4) =~= line_end() + line_end());
    assert(r.skip(end + 4) =~= body_of(page));
    assert forall|j: int| j < end implies !#[trigger] blank_after(r, j) by {
        if blank_after(r, j) {
            let b = r.subrange(j, j + 4);
            assert(b[0] == '\r' && b[2] == '\r');
            assert(l[j] == r[j] && l[j + 2] == r[j + 2]);
        }
    }
    lemma_first_line(head);
    let first = head[0] + line_end();
    assert(r.subrange(0, first.len() as int) =~= l.subrange(0, first.len() as int));
    assert(body_of(page).len() == 0 ==> body_of(page) =~= Seq::<char>::empty());
    if body_of(page).len() > 0 {
        assert(head[1] == "Content-Type: application/json"@);
        assert(head[2] == length_line(body_of(page)));
        assert(head[3] == "Cache-Control: no-store"@);
        assert(head[4] == "Connection: close"@);
    } else {
        assert(head[1] == length_line(body_of(page)));
        assert(head[2] == "Connection: close"@);
    }
}

/// Lines begin with the first.
proof fn lemma_first_line(ls: Seq<Seq<char>>)
    requires
        ls.len() > 0,
    ensures
        (ls[0] + line_end()).is_prefix_of(lines(ls)),
    decreases ls.len(),
{
    let rest = ls.drop_last();
    if ls.len() == 1 {
        assert(lines(rest) =~= Seq::<char>::empty());
        assert(lines(ls) =~= ls[0] + line_end());
    } else {
        lemma_first_line(rest);
        assert(rest[0] == ls[0]);
        let first = ls[0] + line_end();
        assert(lines(ls).subrange(0, first.len() as int) =~= lines(rest).subrange(0, first.len() as int));
    }
}

/// A document is served under both of its names, and whatever query follows.
pub proof fn law_both_names_serve_the_same(d: Pages, path: Seq<char>, query: Seq<char>)
    requires
        !path.contains('?'),
    ensures
        page_at(d, before(path.push('?') + query, '?')) == page_at(d, path),
        page_at(d, before(path, '?')) == page_at(d, path),
        page_at(d, "/aircraft.json"@) == page_at(d, "/data/aircraft.json"@),
        page_at(d, "/stats.json"@) == page_at(d, "/data/stats.json"@),
        page_at(d, "/aircraft.json"@) == Some(d.aircraft),
        page_at(d, "/stats.json"@) == Some(d.stats),
{
    let whole = path.push('?') + query;
    path.index_of_first_ensures('?');
    whole.index_of_first_ensures('?');
    assert(whole[path.len() as int] == '?');
    assert(whole.contains('?'));
    let k = whole.index_of_first('?')->0;
    if k < path.len() {
        assert(path[k] == '?');
    }
    assert(whole.take(path.len() as int) =~= path);
    assert("/aircraft.json"@ != "/stats.json"@ && "/data/aircraft.json"@ != "/stats.json"@
        && "/aircraft.json"@ != "/data/stats.json"@ && "/data/aircraft.json"@ != "/data/stats.json"@) by {
        reveal_strlit("/aircraft.json");
        reveal_strlit("/stats.json");
        reveal_strlit("/data/aircraft.json");
        reveal_strlit("/data/stats.json");
        assert("/aircraft.json"@.len() == 14);
        assert("/stats.json"@.len() == 11);
        assert("/data/aircraft.json"@.len() == 19);
        assert("/data/stats.json"@.len() == 16);
    }
}

/// A GET for a document under either of its names, whatever query and protocol follow, is
/// answered with that document; one for any other path, and any other request, with none.
pub proof fn law_requests_are_served(
    d: Pages,
    verb: Seq<char>,
    path: Seq<char>,
    query: Seq<char>,
    rest: Seq<char>,
)
    requires
        is_word(verb),
        is_word(path),
        !path.contains('?'),
        query.len() > 0 ==> query[0] == '?' && is_word(query),
        rest.len() > 0 ==> rest[0] == ' ',
    ensures
        ({
            let page = asked(d, verb + seq![' '] + (path + query) + rest);
            let air = path == "/aircraft.json"@ || path == "/data/aircraft.json"@;
            let stats = path == "/stats.json"@ || path == "/data/stats.json"@;
            &&& verb == "GET"@ && air ==> page == Some(d.aircraft)
            &&& verb == "GET"@ && !air && stats ==> page == Some(d.stats)
            &&& verb != "GET"@ || !air && !stats ==> page is None
        }),
{
    let line = verb + seq![' '] + (path + query) + rest;
    let none = Seq::<char>::empty();
    let target = path + query;
    assert forall|k: int| 0 <= k < target.len() implies !is_space(#[trigger] target[k]) by {
        if k < path.len() {
            assert(target[k] == path[k]);
        } else {
            assert(target[k] == query[k - path.len()]);
        }
    }
    law_words_are_set_apart(none, verb, seq![' '], target, rest);
    assert(none + verb + seq![' '] + target + rest =~= line);
    if query.len() > 0 {
        law_cut_is_at_the_first(path, '?', query.drop_first());
        assert(target =~= path + seq!['?'] + query.drop_first());
    } else {
        law_cut_is_at_the_first(path, '?', none);
        assert(target =~= path);
    }
}

/// The length that a head gives is a number in digits, that of the bytes of the document.
pub proof fn law_length_is_in_bytes(body: Seq<char>)
    ensures
        ({
            let (name, s) = ("Content-Length: "@, length_line(body));
            &&& name.is_prefix_of(s)
            &&& spelled(s.skip(name.len() as int), 10) == encode_utf8(body).len()
        }),
{
    let (name, s) = ("Content-Length: "@, length_line(body));
    let d = decimal(encode_utf8(body).len());
    law_decimal_reads_back(encode_utf8(body).len());
    assert(s.take(name.len() as int) =~= name);
    assert(s.skip(name.len() as int) =~= d);
}

} // verus!
