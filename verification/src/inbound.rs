//! Request decoding: one raw read buffer becomes one command. The buffer is
//! read as text (invalid bytes become replacement characters, never a
//! failure), split into lines, stripped of framing lines (`*…` and `$…`
//! sigils), and dispatched on the first remaining line, compared ignoring
//! ASCII case.

use crate::text::{
    decimal_value, eq_keyword, is_decimal, lossy_string, lossy_utf8, matches_keyword, parse_u128,
};
use vstd::prelude::*;
use vstd::slice::slice_subrange;
use vstd::string::{StrSliceExecFns, StringExecFns};

verus! {

/// The first position at or after `i` holding a line feed, or the length.
pub open spec fn find_newline(s: Seq<char>, i: int) -> int
    decreases s.len() - i,
{
    if i < 0 || i >= s.len() {
        s.len() as int
    } else if s[i] == '\n' {
        i
    } else {
        find_newline(s, i + 1)
    }
}

/// A line with a trailing carriage return removed, as the line splitting
/// strips one before each line feed.
pub open spec fn strip_cr(line: Seq<char>) -> Seq<char> {
    if line.len() > 0 && line.last() == '\r' {
        line.drop_last()
    } else {
        line
    }
}

/// The lines of `s`: split at each line feed, a carriage return directly
/// before a line feed is dropped, and a final line needs no terminator.
pub open spec fn spec_lines(s: Seq<char>) -> Seq<Seq<char>>
    decreases s.len(),
{
    if s.len() == 0 {
        Seq::empty()
    } else {
        let i = find_newline(s, 0);
        if 0 <= i && i < s.len() {
            seq![strip_cr(s.take(i))] + spec_lines(s.skip(i + 1))
        } else {
            seq![s]
        }
    }
}

/// A line the decoder keeps: framing lines, which start with `$` or `*` and
/// carry more, are discarded; the one-character lines `$` and `*` and
/// everything else stay.
pub open spec fn keeps_line(l: Seq<char>) -> bool {
    l.len() == 0 || (l[0] != '$' && l[0] != '*') || l.len() == 1
}

/// The kept lines, in order.
pub open spec fn spec_kept(lines: Seq<Seq<char>>) -> Seq<Seq<char>>
    decreases lines.len(),
{
    if lines.len() == 0 {
        Seq::empty()
    } else {
        let rest = spec_kept(lines.drop_last());
        if keeps_line(lines.last()) {
            rest.push(lines.last())
        } else {
            rest
        }
    }
}

/// The line following the first line that equals `kw` up to ASCII case, if
/// both exist.
pub open spec fn spec_option_value(ls: Seq<Seq<char>>, kw: Seq<char>) -> Option<Seq<char>>
    decreases ls.len(),
{
    if ls.len() == 0 {
        None
    } else if matches_keyword(ls[0], kw) {
        if ls.len() >= 2 {
            Some(ls[1])
        } else {
            None
        }
    } else {
        spec_option_value(ls.drop_first(), kw)
    }
}

/// A decoded request.
#[derive(Debug)]
pub enum InboundMessage {
    Config(ConfigMessage),
    Ping,
    Echo(String),
    SetValue { key: String, value: String, expires_at: Option<u128> },
    Get { key: String },
    Keys { pattern: String },
}

/// A decoded `CONFIG` subcommand.
#[derive(Debug, Clone)]
pub enum ConfigMessage {
    Get { key: String },
}

/// The mathematical shape of a request.
pub ghost enum CommandView {
    Config(ConfigView),
    Ping,
    Echo(Seq<char>),
    SetValue { key: Seq<char>, value: Seq<char>, expires_at: Option<u128> },
    Get { key: Seq<char> },
    Keys { pattern: Seq<char> },
}

/// The mathematical shape of a `CONFIG` subcommand.
pub ghost enum ConfigView {
    Get { key: Seq<char> },
}

impl View for ConfigMessage {
    type V = ConfigView;

    open spec fn view(&self) -> ConfigView {
        match self {
            ConfigMessage::Get { key } => ConfigView::Get { key: key@ },
        }
    }
}

impl View for InboundMessage {
    type V = CommandView;

    open spec fn view(&self) -> CommandView {
        match self {
            InboundMessage::Config(c) => CommandView::Config(c@),
            InboundMessage::Ping => CommandView::Ping,
            InboundMessage::Echo(s) => CommandView::Echo(s@),
            InboundMessage::SetValue { key, value, expires_at } => CommandView::SetValue {
                key: key@,
                value: value@,
                expires_at: *expires_at,
            },
            InboundMessage::Get { key } => CommandView::Get { key: key@ },
            InboundMessage::Keys { pattern } => CommandView::Keys { pattern: pattern@ },
        }
    }
}

/// Why a buffer failed to decode.
#[derive(Debug)]
pub enum DecodeError {
    /// No usable line, or an unknown command name; carries the whole raw text.
    Malformed(String),
    /// Too few argument lines; carries the command name.
    MissingArguments(String),
    /// A `CONFIG` action other than `GET`; carries the action line.
    UnknownConfigAction(String),
    /// A `PX` option whose following line is not a usable millisecond count,
    /// or one that would push the expiry past the largest representable
    /// timestamp; carries the offending line.
    InvalidExpiry(String),
}

/// The mathematical shape of a decode failure.
pub ghost enum DecodeErrView {
    Malformed(Seq<char>),
    MissingArguments(Seq<char>),
    UnknownConfigAction(Seq<char>),
    InvalidExpiry(Seq<char>),
}

impl View for DecodeError {
    type V = DecodeErrView;

    open spec fn view(&self) -> DecodeErrView {
        match self {
            DecodeError::Malformed(s) => DecodeErrView::Malformed(s@),
            DecodeError::MissingArguments(s) => DecodeErrView::MissingArguments(s@),
            DecodeError::UnknownConfigAction(s) => DecodeErrView::UnknownConfigAction(s@),
            DecodeError::InvalidExpiry(s) => DecodeErrView::InvalidExpiry(s@),
        }
    }
}

/// A decode result as mathematical values.
pub open spec fn decode_view(r: Result<InboundMessage, DecodeError>) -> Result<
    CommandView,
    DecodeErrView,
> {
    match r {
        Ok(m) => Ok(m@),
        Err(e) => Err(e@),
    }
}

/// What a `SET` command's trailing option lines contribute: no `PX` option
/// leaves the entry unexpiring; a `PX` option followed by a digits-only count
/// yields the absolute expiry `now + count`, and anything else is a failure.
pub open spec fn spec_set_command(
    ls: Seq<Seq<char>>,
    now: u128,
) -> Result<CommandView, DecodeErrView> {
    match spec_option_value(ls.skip(3), "PX"@) {
        None => Ok(CommandView::SetValue { key: ls[1], value: ls[2], expires_at: None }),
        Some(px) => if is_decimal(px) && decimal_value(px) <= u128::MAX && now + decimal_value(px)
            <= u128::MAX {
            Ok(
                CommandView::SetValue {
                    key: ls[1],
                    value: ls[2],
                    expires_at: Some((now + decimal_value(px)) as u128),
                },
            )
        } else {
            Err(DecodeErrView::InvalidExpiry(px))
        },
    }
}

/// What one raw read decodes to at time `now`: the kept lines of the text,
/// dispatched on the first line ignoring ASCII case, with each command's
/// required argument count enforced.
pub open spec fn spec_decode(text: Seq<char>, now: u128) -> Result<CommandView, DecodeErrView> {
    let ls = spec_kept(spec_lines(text));
    if ls.len() == 0 {
        Err(DecodeErrView::Malformed(text))
    } else if matches_keyword(ls[0], "CONFIG"@) {
        if ls.len() >= 3 {
            if matches_keyword(ls[1], "GET"@) {
                Ok(CommandView::Config(ConfigView::Get { key: ls[2] }))
            } else {
                Err(DecodeErrView::UnknownConfigAction(ls[1]))
            }
        } else {
            Err(DecodeErrView::MissingArguments("CONFIG"@))
        }
    } else if matches_keyword(ls[0], "PING"@) {
        Ok(CommandView::Ping)
    } else if matches_keyword(ls[0], "ECHO"@) {
        if ls.len() >= 2 {
            Ok(CommandView::Echo(ls[1]))
        } else {
            Err(DecodeErrView::MissingArguments("ECHO"@))
        }
    } else if matches_keyword(ls[0], "SET"@) {
        if ls.len() >= 3 {
            spec_set_command(ls, now)
        } else {
            Err(DecodeErrView::MissingArguments("SET"@))
        }
    } else if matches_keyword(ls[0], "GET"@) {
        if ls.len() >= 2 {
            Ok(CommandView::Get { key: ls[1] })
        } else {
            Err(DecodeErrView::MissingArguments("GET"@))
        }
    } else if matches_keyword(ls[0], "KEYS"@) {
        if ls.len() >= 2 {
            Ok(CommandView::Keys { pattern: ls[1] })
        } else {
            Err(DecodeErrView::MissingArguments("KEYS"@))
        }
    } else {
        Err(DecodeErrView::Malformed(text))
    }
}

proof fn lemma_find_newline_from(s: Seq<char>, i: int, d: int)
    requires
        0 <= i <= d <= s.len(),
        forall|t: int| i <= t < d ==> s[t] != '\n',
        d < s.len() ==> s[d] == '\n',
    ensures
        find_newline(s, i) == if d < s.len() {
            d
        } else {
            s.len() as int
        },
    decreases d - i,
{
    if i < d {
        lemma_find_newline_from(s, i + 1, d);
    }
}

/// Splits text into lines as [`spec_lines`] describes.
pub fn split_lines(text: &str) -> (r: Vec<String>)
    ensures
        r.deep_view() == spec_lines(text@),
{
    let n = text.unicode_len();
    let mut r: Vec<String> = Vec::new();
    let mut pos: usize = 0;
    proof {
        assert(r.deep_view() =~= Seq::<Seq<char>>::empty());
        assert(text@.skip(0) =~= text@);
    }
    while pos < n
        invariant
            n == text@.len(),
            0 <= pos <= n,
            spec_lines(text@) == r.deep_view() + spec_lines(text@.skip(pos as int)),
        decreases n - pos,
    {
        let ghost s = text@.skip(pos as int);
        let mut j = pos;
        while j < n && text.get_char(j) != '\n'
            invariant
                n == text@.len(),
                pos <= j <= n,
                forall|t: int| pos <= t < j ==> text@[t] != '\n',
            decreases n - j,
        {
            j += 1;
        }
        proof {
            assert(forall|t: int| 0 <= t < j - pos ==> s[t] == text@[pos + t]);
            lemma_find_newline_from(s, 0, j - pos);
        }
        let ghost r0 = r.deep_view();
        if j < n {
            let end = if j > pos && text.get_char(j - 1) == '\r' {
                j - 1
            } else {
                j
            };
            let line = text.substring_char(pos, end).to_owned();
            proof {
                assert(s.take(j - pos) =~= text@.subrange(pos as int, j as int));
                assert(strip_cr(s.take(j - pos)) =~= text@.subrange(pos as int, end as int));
                assert(line@ == strip_cr(s.take(j - pos)));
            }
            r.push(line);
            proof {
                assert(s.skip(j - pos + 1) =~= text@.skip(j + 1));
                assert(spec_lines(s) == seq![strip_cr(s.take(j - pos))] + spec_lines(
                    text@.skip(j + 1),
                ));
                assert(r.deep_view() =~= r0.push(strip_cr(s.take(j - pos))));
                assert(r0 + spec_lines(s) =~= r.deep_view() + spec_lines(text@.skip(j + 1)));
            }
            pos = j + 1;
        } else {
            let line = text.substring_char(pos, n).to_owned();
            proof {
                assert(s =~= text@.subrange(pos as int, n as int));
                assert(line@ == s);
                assert(spec_lines(s) == seq![s]);
            }
            r.push(line);
            proof {
                assert(r.deep_view() =~= r0.push(s));
                assert(text@.skip(n as int) =~= Seq::<char>::empty());
                assert(r0 + spec_lines(s) =~= r.deep_view() + spec_lines(text@.skip(n as int)));
            }
            pos = n;
        }
    }
    proof {
        assert(text@.skip(n as int) =~= Seq::<char>::empty());
        assert(spec_lines(text@) =~= r.deep_view());
    }
    r
}

fn keeps(l: &String) -> (r: bool)
    ensures
        r == keeps_line(l@),
{
    let s = l.as_str();
    let n = s.unicode_len();
    if n == 0 {
        return true;
    }
    let c = s.get_char(0);
    if c != '$' && c != '*' {
        return true;
    }
    n == 1
}

/// Drops the framing lines.
fn keep_framed(lines: Vec<String>) -> (r: Vec<String>)
    ensures
        r.deep_view() == spec_kept(lines.deep_view()),
{
    let ghost ls = lines.deep_view();
    let mut r: Vec<String> = Vec::new();
    let mut i: usize = 0;
    proof {
        assert(ls.take(0) =~= Seq::<Seq<char>>::empty());
        assert(r.deep_view() =~= spec_kept(ls.take(0)));
    }
    while i < lines.len()
        invariant
            ls == lines.deep_view(),
            ls.len() == lines@.len(),
            0 <= i <= ls.len(),
            r.deep_view() == spec_kept(ls.take(i as int)),
        decreases ls.len() - i,
    {
        let ghost r0 = r.deep_view();
        if keeps(&lines[i]) {
            r.push(lines[i].clone());
            proof {
                assert(r.deep_view() =~= r0.push(ls[i as int]));
            }
        }
        proof {
            assert(ls.take(i + 1).drop_last() =~= ls.take(i as int));
            assert(ls.take(i + 1).last() == ls[i as int]);
        }
        i += 1;
    }
    proof {
        assert(ls.take(ls.len() as int) =~= ls);
    }
    r
}

/// Checks that enough argument lines are present for the command named
/// `message_id`, failing as the decoder does.
pub fn validate(lines: &[String], min_length: usize, message_id: &str) -> (r: Result<
    (),
    DecodeError,
>)
    ensures
        match r {
            Ok(_) => lines@.len() >= min_length,
            Err(e) => lines@.len() < min_length && e@ == DecodeErrView::MissingArguments(
                message_id@,
            ),
        },
{
    if lines.len() < min_length {
        return Err(DecodeError::MissingArguments(message_id.to_owned()));
    }
    Ok(())
}

proof fn lemma_option_value_at(ls: Seq<Seq<char>>, kw: Seq<char>, j: int)
    requires
        0 <= j < ls.len(),
        matches_keyword(ls[j], kw),
        forall|t: int| 0 <= t < j ==> !matches_keyword(#[trigger] ls[t], kw),
    ensures
        spec_option_value(ls, kw) == if j + 1 < ls.len() {
            Some(ls[j + 1])
        } else {
            None
        },
    decreases j,
{
    if j > 0 {
        lemma_option_value_at(ls.drop_first(), kw, j - 1);
    }
}

proof fn lemma_option_value_absent(ls: Seq<Seq<char>>, kw: Seq<char>)
    requires
        forall|t: int| 0 <= t < ls.len() ==> !matches_keyword(#[trigger] ls[t], kw),
    ensures
        spec_option_value(ls, kw) is None,
    decreases ls.len(),
{
    if ls.len() > 0 {
        lemma_option_value_absent(ls.drop_first(), kw);
    }
}

/// Finds the line after the first line equal to `key` up to ASCII case.
fn get_option(lines: &[String], key: &str) -> (r: Option<String>)
    ensures
        match r {
            Some(v) => spec_option_value(lines.deep_view(), key@) == Some(v@),
            None => spec_option_value(lines.deep_view(), key@) is None,
        },
{
    let ghost ls = lines.deep_view();
    let mut j: usize = 0;
    while j < lines.len()
        invariant
            ls == lines.deep_view(),
            ls.len() == lines@.len(),
            0 <= j <= ls.len(),
            forall|t: int| 0 <= t < j ==> !matches_keyword(#[trigger] ls[t], key@),
        decreases ls.len() - j,
    {
        if eq_keyword(lines[j].as_str(), key) {
            proof {
                lemma_option_value_at(ls, key@, j as int);
            }
            if j + 1 < lines.len() {
                return Some(lines[j + 1].clone());
            }
            return None;
        }
        j += 1;
    }
    proof {
        lemma_option_value_absent(ls, key@);
    }
    None
}

/// Decodes one read's text at time `now_ms`.
pub fn decode_text(text: &str, now_ms: u128) -> (r: Result<InboundMessage, DecodeError>)
    ensures
        decode_view(r) == spec_decode(text@, now_ms),
{
    let all_lines = split_lines(text);
    let lines = keep_framed(all_lines);
    let ghost ls = spec_kept(spec_lines(text@));
    if lines.len() == 0 {
        return Err(DecodeError::Malformed(text.to_owned()));
    }
    let head = lines[0].as_str();
    if eq_keyword(head, "CONFIG") {
        match validate(slice_subrange(lines.as_slice(), 1, lines.len()), 2, "CONFIG") {
            Err(e) => Err(e),
            Ok(_) => {
                if eq_keyword(lines[1].as_str(), "GET") {
                    Ok(
                        InboundMessage::Config(
                            ConfigMessage::Get { key: lines[2].clone() },
                        ),
                    )
                } else {
                    Err(DecodeError::UnknownConfigAction(lines[1].clone()))
                }
            },
        }
    } else if eq_keyword(head, "PING") {
        Ok(InboundMessage::Ping)
    } else if eq_keyword(head, "ECHO") {
        match validate(slice_subrange(lines.as_slice(), 1, lines.len()), 1, "ECHO") {
            Err(e) => Err(e),
            Ok(_) => Ok(InboundMessage::Echo(lines[1].clone())),
        }
    } else if eq_keyword(head, "SET") {
        match validate(slice_subrange(lines.as_slice(), 1, lines.len()), 2, "SET") {
            Err(e) => Err(e),
            Ok(_) => {
                let key = lines[1].clone();
                let value = lines[2].clone();
                let options = slice_subrange(lines.as_slice(), 3, lines.len());
                proof {
                    assert(options.deep_view() =~= ls.skip(3));
                }
                match get_option(options, "PX") {
                    None => Ok(InboundMessage::SetValue { key, value, expires_at: None }),
                    Some(px) => {
                        let parsed = parse_u128(px.as_str());
                        match parsed {
                            Some(count) => match now_ms.checked_add(count) {
                                Some(expiry) => Ok(
                                    InboundMessage::SetValue {
                                        key,
                                        value,
                                        expires_at: Some(expiry),
                                    },
                                ),
                                None => Err(DecodeError::InvalidExpiry(px)),
                            },
                            None => Err(DecodeError::InvalidExpiry(px)),
                        }
                    },
                }
            },
        }
    } else if eq_keyword(head, "GET") {
        match validate(slice_subrange(lines.as_slice(), 1, lines.len()), 1, "GET") {
            Err(e) => Err(e),
            Ok(_) => Ok(InboundMessage::Get { key: lines[1].clone() }),
        }
    } else if eq_keyword(head, "KEYS") {
        match validate(slice_subrange(lines.as_slice(), 1, lines.len()), 1, "KEYS") {
            Err(e) => Err(e),
            Ok(_) => Ok(InboundMessage::Keys { pattern: lines[1].clone() }),
        }
    } else {
        Err(DecodeError::Malformed(text.to_owned()))
    }
}

/// Decodes one raw read at time `now_ms`. The buffer is read as text first;
/// bytes that are not valid UTF-8 become replacement characters rather than
/// a failure.
pub fn decode(buffer: &[u8], now_ms: u128) -> (r: Result<InboundMessage, DecodeError>)
    ensures
        decode_view(r) == spec_decode(lossy_utf8(buffer@), now_ms),
{
    let text = lossy_string(buffer);
    decode_text(text.as_str(), now_ms)
}

} // verus!
