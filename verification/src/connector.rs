//! Outbound connectors as the command line gives them:
//! host,port,protocol[,uuid=...].

use crate::beast::Stream;
use crate::text::{find, same, trim, trimmed};
use vstd::prelude::*;

verus! {

/// What a connector does.
#[derive(Debug)]
pub enum Connector {
    /// Pull a Beast stream in from an address.
    Pull(String),
    /// Push a stream to an address, with the station's UUID if one is given.
    Push { addr: String, stream: Stream, plus: bool, uuid: Option<String> },
}

/// Why a connector cannot be read.
#[derive(Debug)]
pub enum ConnectorError {
    /// Fewer than three fields.
    Short,
    /// An unknown protocol.
    Protocol(String),
}

/// A connector as a value.
pub enum Link {
    Pull(Seq<char>),
    Push { addr: Seq<char>, stream: Stream, plus: bool, uuid: Option<Seq<char>> },
}

impl View for Connector {
    type V = Link;

    open spec fn view(&self) -> Link {
        match self {
            Connector::Pull(addr) => Link::Pull(addr@),
            Connector::Push { addr, stream, plus, uuid } => Link::Push {
                addr: addr@,
                stream: *stream,
                plus: *plus,
                uuid: match uuid {
                    Some(u) => Some(u@),
                    None => None,
                },
            },
        }
    }
}

/// What stands between the commas of `s`, white space at the ends aside.
pub open spec fn fields(s: Seq<char>) -> Seq<Seq<char>>
    decreases s.len(),
    via fields_decrease
{
    match s.index_of_first(',') {
        Some(k) => seq![trimmed(s.take(k))] + fields(s.skip(k + 1)),
        None => seq![trimmed(s)],
    }
}

#[via_fn]
proof fn fields_decrease(s: Seq<char>) {
    s.index_of_first_ensures(',');
}

/// What follows "uuid=" in the first of the fields, from the `i`th on, that
/// starts so.
pub open spec fn uuid_in(parts: Seq<Seq<char>>, i: int) -> Option<Seq<char>>
    decreases parts.len() - i,
{
    if i < 0 || i >= parts.len() {
        None
    } else if "uuid="@.is_prefix_of(parts[i]) {
        Some(parts[i].skip("uuid="@.len() as int))
    } else {
        uuid_in(parts, i + 1)
    }
}

/// What a connector says, or why it cannot be read.
pub open spec fn link_of(s: Seq<char>) -> Result<Link, Option<Seq<char>>> {
    let p = fields(s);
    if p.len() < 3 {
        Err(None)
    } else {
        let addr = p[0] + ":"@ + p[1];
        if p[2] == "beast_in"@ {
            Ok(Link::Pull(addr))
        } else if p[2] == "beast_out"@ {
            Ok(Link::Push { addr, stream: Stream::Full, plus: false, uuid: uuid_in(p, 3) })
        } else if p[2] == "beast_reduce_out"@ {
            Ok(Link::Push { addr, stream: Stream::Reduced, plus: false, uuid: uuid_in(p, 3) })
        } else if p[2] == "beast_reduce_plus_out"@ {
            Ok(Link::Push { addr, stream: Stream::Reduced, plus: true, uuid: uuid_in(p, 3) })
        } else {
            Err(Some(p[2]))
        }
    }
}

/// Strings as values.
pub open spec fn texts(parts: Seq<&str>) -> Seq<Seq<char>> {
    Seq::new(parts.len(), |k: int| parts[k]@)
}

fn split(s: &str) -> (parts: Vec<&str>)
    ensures
        texts(parts@) == fields(s@),
{
    let mut parts: Vec<&str> = Vec::new();
    let mut rest: &str = s;
    assert(texts(parts@) + fields(rest@) =~= fields(s@));
    loop
        invariant_except_break
            texts(parts@) + fields(rest@) == fields(s@),
        ensures
            texts(parts@) == fields(s@),
        decreases rest@.len(),
    {
        let n: usize = rest.unicode_len();
        let ghost before = parts@;
        match find(rest, ',') {
            Some(k) => {
                assert(rest@.subrange(0, k as int) =~= rest@.take(k as int));
                assert(rest@.subrange(k + 1, n as int) =~= rest@.skip(k + 1));
                let one: &str = trim(rest.substring_char(0, k));
                parts.push(one);
                assert(texts(parts@) =~= texts(before).push(one@));
                assert(texts(parts@) + fields(rest@.skip(k + 1)) =~= texts(before) + fields(rest@));
                rest = rest.substring_char(k + 1, n);
            },
            None => {
                let one: &str = trim(rest);
                parts.push(one);
                assert(texts(parts@) =~= texts(before) + fields(rest@));
                break;
            },
        }
    }
    parts
}

/// What follows "uuid=" in `part`, if it starts so.
fn after_uuid(part: &str) -> (u: Option<&str>)
    ensures
        match u {
            Some(u) => "uuid="@.is_prefix_of(part@) && u@ == part@.skip("uuid="@.len() as int),
            None => !"uuid="@.is_prefix_of(part@),
        },
{
    let n: usize = part.unicode_len();
    let k: usize = "uuid=".unicode_len();
    if n < k {
        return None;
    }
    assert(part@.subrange(0, k as int) =~= part@.take(k as int));
    if same(part.substring_char(0, k), "uuid=") {
        assert("uuid="@.is_prefix_of(part@));
        assert(part@.subrange(k as int, n as int) =~= part@.skip(k as int));
        Some(part.substring_char(k, n))
    } else {
        assert(!"uuid="@.is_prefix_of(part@)) by {
            if "uuid="@.is_prefix_of(part@) {
                assert(part@.take(k as int) =~= "uuid="@);
            }
        }
        None
    }
}

fn owned(s: &str) -> (t: String)
    ensures
        t@ == s@,
{
    let mut t: String = String::new();
    t.append(s);
    assert(t@ =~= s@);
    t
}

fn find_uuid(parts: &Vec<&str>) -> (u: Option<String>)
    requires
        parts@.len() >= 3,
    ensures
        match u {
            Some(u) => uuid_in(texts(parts@), 3) == Some(u@),
            None => uuid_in(texts(parts@), 3) is None,
        },
{
    for i in 3..parts.len()
        invariant
            parts@.len() >= 3,
            uuid_in(texts(parts@), 3) == uuid_in(texts(parts@), i as int),
    {
        assert(texts(parts@)[i as int] == parts@[i as int]@);
        if let Some(u) = after_uuid(parts[i]) {
            return Some(owned(u));
        }
    }
    None
}

/// Read a connector: host,port,protocol[,uuid=...]; the protocol is beast_out,
/// beast_reduce_out, beast_reduce_plus_out or beast_in.
pub fn parse_connector(s: &str) -> (c: Result<Connector, ConnectorError>)
    ensures
        match c {
            Ok(c) => link_of(s@) == Ok::<Link, Option<Seq<char>>>(c@),
            Err(ConnectorError::Short) => link_of(s@) == Err::<Link, Option<Seq<char>>>(None),
            Err(ConnectorError::Protocol(p)) => link_of(s@) == Err::<Link, Option<Seq<char>>>(Some(p@)),
        },
{
    let parts: Vec<&str> = split(s);
    if parts.len() < 3 {
        return Err(ConnectorError::Short);
    }
    let ghost p = texts(parts@);
    assert(p[0] == parts@[0]@ && p[1] == parts@[1]@ && p[2] == parts@[2]@);
    let mut addr: String = owned(parts[0]);
    addr.append(":");
    addr.append(parts[1]);
    let protocol: &str = parts[2];
    if same(protocol, "beast_in") {
        return Ok(Connector::Pull(addr));
    }
    let (stream, plus): (Stream, bool) = if same(protocol, "beast_out") {
        (Stream::Full, false)
    } else if same(protocol, "beast_reduce_out") {
        (Stream::Reduced, false)
    } else if same(protocol, "beast_reduce_plus_out") {
        (Stream::Reduced, true)
    } else {
        return Err(ConnectorError::Protocol(owned(protocol)));
    };
    let uuid: Option<String> = find_uuid(&parts);
    Ok(Connector::Push { addr, stream, plus, uuid })
}

/// Commas set the fields apart.
pub proof fn law_commas_set_fields_apart(a: Seq<char>, rest: Seq<char>)
    requires
        !a.contains(','),
    ensures
        fields(a) == seq![trimmed(a)],
        fields(a + seq![','] + rest) == seq![trimmed(a)] + fields(rest),
{
    a.index_of_first_ensures(',');
    let s = a + seq![','] + rest;
    s.index_of_first_ensures(',');
    assert(s[a.len() as int] == ',');
    assert(s.contains(','));
    let k = s.index_of_first(',')->0;
    if k < a.len() {
        assert(a[k] == s[k]);
        assert(a.contains(','));
    }
    assert(s.take(k) =~= a);
    assert(s.skip(k + 1) =~= rest);
}

/// A connector names its host and port, with a colon between, and goes by its protocol;
/// what follows "uuid=" after that is the station's name.
pub proof fn law_connector_is_read(host: Seq<char>, port: Seq<char>, protocol: Seq<char>, uuid: Seq<char>)
    requires
        !host.contains(','),
        !port.contains(','),
        !protocol.contains(','),
        !uuid.contains(','),
        trimmed("uuid="@ + uuid) == "uuid="@ + uuid,
    ensures
        ({
            let plain = host + seq![','] + (port + seq![','] + protocol);
            let named = host + seq![','] + (port + seq![','] + (protocol + seq![','] + ("uuid="@ + uuid)));
            let addr = trimmed(host) + ":"@ + trimmed(port);
            let push = |stream: Stream, plus: bool, uuid: Option<Seq<char>>|
                Ok::<Link, Option<Seq<char>>>(Link::Push { addr, stream, plus, uuid });
            &&& trimmed(protocol) == "beast_in"@ ==> {
                &&& link_of(plain) == Ok::<Link, Option<Seq<char>>>(Link::Pull(addr))
                &&& link_of(named) == Ok::<Link, Option<Seq<char>>>(Link::Pull(addr))
            }
            &&& trimmed(protocol) == "beast_out"@ ==> {
                &&& link_of(plain) == push(Stream::Full, false, None)
                &&& link_of(named) == push(Stream::Full, false, Some(uuid))
            }
            &&& trimmed(protocol) == "beast_reduce_out"@ ==> {
                &&& link_of(plain) == push(Stream::Reduced, false, None)
                &&& link_of(named) == push(Stream::Reduced, false, Some(uuid))
            }
            &&& trimmed(protocol) == "beast_reduce_plus_out"@ ==> {
                &&& link_of(plain) == push(Stream::Reduced, true, None)
                &&& link_of(named) == push(Stream::Reduced, true, Some(uuid))
            }
            &&& link_of(host) == Err::<Link, Option<Seq<char>>>(None)
            &&& link_of(host + seq![','] + port) == Err::<Link, Option<Seq<char>>>(None)
        }),
{
    reveal_strlit("uuid=");
    reveal_strlit("beast_in");
    reveal_strlit("beast_out");
    reveal_strlit("beast_reduce_out");
    reveal_strlit("beast_reduce_plus_out");
    let last = "uuid="@ + uuid;
    assert(!last.contains(',')) by {
        if last.contains(',') {
            let k = last.index_of(',');
            if k >= 5 {
                assert(uuid[k - 5] == ',');
            }
        }
    }
    law_commas_set_fields_apart(last, Seq::empty());
    law_commas_set_fields_apart(protocol, last);
    law_commas_set_fields_apart(port, protocol);
    law_commas_set_fields_apart(port, protocol + seq![','] + last);
    law_commas_set_fields_apart(host, port);
    law_commas_set_fields_apart(host, port + seq![','] + protocol);
    law_commas_set_fields_apart(host, port + seq![','] + (protocol + seq![','] + last));
    let three = fields(host + seq![','] + (port + seq![','] + protocol));
    let four = fields(host + seq![','] + (port + seq![','] + (protocol + seq![','] + last)));
    assert(three =~= seq![trimmed(host), trimmed(port), trimmed(protocol)]);
    assert(four =~= seq![trimmed(host), trimmed(port), trimmed(protocol), last]);
    assert("uuid="@.is_prefix_of(last));
    assert(last.skip(5) =~= uuid);
    reveal_with_fuel(uuid_in, 2);
    assert("beast_in"@[6] == 'i' && "beast_out"@[6] == 'o' && "beast_reduce_out"@[6] == 'r');
    assert("beast_reduce_out"@.len() == 16 && "beast_reduce_plus_out"@.len() == 21);
    assert("beast_in"@.len() == 8 && "beast_out"@.len() == 9);
}

} // verus!
