//! Reply encoding: each reply variant has an exact wire text, built from
//! simple strings (`+…`), bulk strings (`$len…`) and arrays (`*count…`),
//! every line ending in a carriage return and a line feed.

use crate::text::{decimal_of, render_u64};
use vstd::prelude::*;
use vstd::string::StringExecFns;

verus! {

/// The wire line terminator.
pub open spec fn crlf() -> Seq<char> {
    seq!['\r', '\n']
}

/// The wire text of a simple string reply: `+`, the text, CRLF.
pub open spec fn spec_simple_string(s: Seq<char>) -> Seq<char> {
    seq!['+'] + s + crlf()
}

/// The wire text of the null bulk string: `$-1` CRLF.
pub open spec fn spec_null_bulk_string() -> Seq<char> {
    seq!['$', '-', '1', '\r', '\n']
}

/// The wire text of one bulk string: `$`, the payload's length in bytes in
/// decimal (the length of its UTF-8 encoding, as it fits the machine's
/// word), CRLF, the payload, CRLF.
pub open spec fn spec_bulk_string(s: Seq<char>) -> Seq<char> {
    seq!['$'] + decimal_of((vstd::utf8::encode_utf8(s).len() as usize) as int) + crlf() + s + crlf()
}

/// The concatenated bulk strings of the lines, in order.
pub open spec fn spec_bulk_strings(lines: Seq<Seq<char>>) -> Seq<char>
    decreases lines.len(),
{
    if lines.len() == 0 {
        Seq::empty()
    } else {
        spec_bulk_strings(lines.drop_last()) + spec_bulk_string(lines.last())
    }
}

/// The wire text of an array reply: `*`, the element count in decimal, CRLF,
/// then each element as a bulk string.
pub open spec fn spec_array(lines: Seq<Seq<char>>) -> Seq<char> {
    seq!['*'] + decimal_of(lines.len() as int) + crlf() + spec_bulk_strings(lines)
}

/// Encodes a simple string reply.
pub fn create_simple_string_reply(string: &str) -> (r: String)
    ensures
        r@ == spec_simple_string(string@),
{
    proof {
        reveal_strlit("+");
        reveal_strlit("\r\n");
    }
    let mut r = String::from_str("+");
    r.append(string);
    r.append("\r\n");
    proof {
        assert(r@ =~= spec_simple_string(string@));
    }
    r
}

/// Encodes the null bulk string reply.
pub fn create_null_bulk_strings_reply() -> (r: String)
    ensures
        r@ == spec_null_bulk_string(),
{
    proof {
        reveal_strlit("$-1\r\n");
    }
    let r = String::from_str("$-1\r\n");
    proof {
        assert(r@ =~= spec_null_bulk_string());
    }
    r
}

/// Encodes each line as a bulk string, in order.
pub fn create_bulk_strings_reply(lines: Vec<String>) -> (r: String)
    ensures
        r@ == spec_bulk_strings(lines.deep_view()),
{
    let ghost ls = lines.deep_view();
    let mut r = String::new();
    let mut i: usize = 0;
    proof {
        assert(ls.take(0) =~= Seq::<Seq<char>>::empty());
        assert(r@ =~= spec_bulk_strings(ls.take(0)));
    }
    while i < lines.len()
        invariant
            ls == lines.deep_view(),
            ls.len() == lines@.len(),
            0 <= i <= ls.len(),
            r@ == spec_bulk_strings(ls.take(i as int)),
        decreases ls.len() - i,
    {
        proof {
            reveal_strlit("$");
            reveal_strlit("\r\n");
        }
        let len = lines[i].as_str().len();
        let num = render_u64(len as u64);
        r.append("$");
        r.append(num.as_str());
        r.append("\r\n");
        r.append(lines[i].as_str());
        r.append("\r\n");
        proof {
            assert(ls.take(i + 1).drop_last() =~= ls.take(i as int));
            assert(ls.take(i + 1).last() == ls[i as int]);
            assert(ls[i as int] == lines@[i as int]@);
            assert(r@ =~= spec_bulk_strings(ls.take(i as int)) + spec_bulk_string(ls[i as int]));
        }
        i += 1;
    }
    proof {
        assert(ls.take(ls.len() as int) =~= ls);
    }
    r
}

/// Encodes an array reply holding each line as a bulk string.
pub fn create_array_reply(lines: Vec<String>) -> (r: String)
    ensures
        r@ == spec_array(lines.deep_view()),
{
    proof {
        reveal_strlit("*");
        reveal_strlit("\r\n");
    }
    let ghost ls = lines.deep_view();
    let count = lines.len();
    let mut r = String::from_str("*");
    let num = render_u64(count as u64);
    r.append(num.as_str());
    r.append("\r\n");
    let body = create_bulk_strings_reply(lines);
    r.append(body.as_str());
    proof {
        assert(r@ =~= spec_array(ls));
    }
    r
}

/// A reply to one handled command.
#[derive(Debug)]
pub enum OutboundMessage {
    Okay,
    ConfigGet { key: String, value: Option<String> },
    Pong,
    Echo(String),
    Get(Option<String>),
    Keys(Vec<String>),
}

/// The mathematical shape of a reply.
pub ghost enum OutboundMessageView {
    Okay,
    ConfigGet { key: Seq<char>, value: Option<Seq<char>> },
    Pong,
    Echo(Seq<char>),
    Get(Option<Seq<char>>),
    Keys(Seq<Seq<char>>),
}

impl View for OutboundMessage {
    type V = OutboundMessageView;

    open spec fn view(&self) -> OutboundMessageView {
        match self {
            OutboundMessage::Okay => OutboundMessageView::Okay,
            OutboundMessage::ConfigGet { key, value } => OutboundMessageView::ConfigGet {
                key: key@,
                value: match value {
                    Some(v) => Some(v@),
                    None => None,
                },
            },
            OutboundMessage::Pong => OutboundMessageView::Pong,
            OutboundMessage::Echo(s) => OutboundMessageView::Echo(s@),
            OutboundMessage::Get(v) => OutboundMessageView::Get(
                match v {
                    Some(v) => Some(v@),
                    None => None,
                },
            ),
            OutboundMessage::Keys(vs) => OutboundMessageView::Keys(vs.deep_view()),
        }
    }
}

/// The wire text of each reply variant. A present `CONFIG GET` value and the
/// key travel as a two-element array; an absent one is the literal `$-1`
/// array element.
pub open spec fn spec_encode(m: OutboundMessageView) -> Seq<char> {
    match m {
        OutboundMessageView::Okay => spec_simple_string(seq!['O', 'K']),
        OutboundMessageView::Pong => spec_simple_string(seq!['P', 'O', 'N', 'G']),
        OutboundMessageView::Echo(s) => spec_simple_string(s),
        OutboundMessageView::Get(None) => spec_null_bulk_string(),
        OutboundMessageView::Get(Some(v)) => spec_bulk_string(v),
        OutboundMessageView::ConfigGet { key, value } => spec_array(
            seq![
                key,
                match value {
                    Some(v) => v,
                    None => seq!['$', '-', '1'],
                },
            ],
        ),
        OutboundMessageView::Keys(vs) => spec_array(vs),
    }
}

impl OutboundMessage {
    /// Encodes the reply into its wire text.
    pub fn into_string(self) -> (r: String)
        ensures
            r@ == spec_encode(self@),
    {
        match self {
            OutboundMessage::Okay => {
                proof {
                    reveal_strlit("OK");
                }
                create_simple_string_reply("OK")
            },
            OutboundMessage::Pong => {
                proof {
                    reveal_strlit("PONG");
                }
                create_simple_string_reply("PONG")
            },
            OutboundMessage::Echo(string) => create_simple_string_reply(string.as_str()),
            OutboundMessage::Get(None) => create_null_bulk_strings_reply(),
            OutboundMessage::Get(Some(value)) => {
                let ghost v = value@;
                let mut lines: Vec<String> = Vec::new();
                lines.push(value);
                proof {
                    assert(lines.deep_view() =~= seq![v]);
                    assert(seq![v].drop_last() =~= Seq::<Seq<char>>::empty());
                }
                let r = create_bulk_strings_reply(lines);
                proof {
                    assert(seq![v].last() == v);
                    assert(spec_bulk_strings(Seq::<Seq<char>>::empty()) =~= Seq::<char>::empty());
                    assert(Seq::<char>::empty() + spec_bulk_string(v) =~= spec_bulk_string(v));
                    assert(r@ =~= spec_bulk_string(v));
                }
                r
            },
            OutboundMessage::ConfigGet { key, value } => create_config_string(key, value),
            OutboundMessage::Keys(values) => create_array_reply(values),
        }
    }
}

fn create_config_string(key: String, value: Option<String>) -> (r: String)
    ensures
        r@ == spec_encode(OutboundMessageView::ConfigGet {
            key: key@,
            value: match value {
                Some(v) => Some(v@),
                None => None,
            },
        }),
{
    let ghost k = key@;
    let ghost vv = match value {
        Some(ref v) => Some(v@),
        None => None::<Seq<char>>,
    };
    let mut lines: Vec<String> = Vec::new();
    lines.push(key);
    match value {
        Some(v) => lines.push(v),
        None => {
            proof {
                reveal_strlit("$-1");
            }
            lines.push(String::from_str("$-1"));
        },
    }
    let ghost ls = lines.deep_view();
    proof {
        reveal_strlit("$-1");
        assert(ls.len() == 2);
        assert(ls[0] == k);
        assert(ls[1] == match vv {
            Some(v) => v,
            None => seq!['$', '-', '1'],
        }) by {
            if vv is None {
                assert("$-1"@ =~= seq!['$', '-', '1']);
            }
        }
        assert(ls =~= seq![
            k,
            match vv {
                Some(v) => v,
                None => seq!['$', '-', '1'],
            },
        ]);
    }
    create_array_reply(lines)
}

} // verus!
