//! The text protocol: one `incr <key>` per read, answered by one short
//! line.

use crate::collection::{instance_of, RatelimitCollection};
use crate::ratelimit::{valid_bounds, Ratelimit};
use vstd::prelude::*;
use vstd::string::StrSliceExecFns;
use vstd::string::StringExecFns;
use vstd::string::StringSliceAdditionalSpecFns;
use vstd::utf8::{decode_utf8, encode_utf8_decode_utf8, valid_utf8};

verus! {

/// The most bytes that one read takes from the transport.
pub const READ_SIZE: usize = 512;

/// Decodes `bytes` as text with `core::str::from_utf8`. Taken on trust from
/// its documentation: the call succeeds exactly when the bytes are valid
/// UTF-8, and the text it gives is then made of these very bytes.
#[verifier::external_body]
fn from_utf8(bytes: &[u8]) -> (text: Option<&str>)
    ensures
        text matches Some(decoded) ==> valid_utf8(bytes@) && decoded.spec_bytes() == bytes@,
        text is None ==> !valid_utf8(bytes@),
{
    core::str::from_utf8(bytes).ok()
}

/// The characters of `text`, one by one.
fn to_chars(text: &str) -> (chars: Vec<char>)
    ensures
        chars@ == text@,
{
    let mut chars: Vec<char> = Vec::new();
    for c in iter: text.chars()
        invariant
            chars@ == iter.seq().take(iter.index()),
    {
        chars.push(c);
    }
    chars
}

/// Whether `c` is white space, as Unicode defines it.
pub open spec fn white_space(c: char) -> bool {
    let code = c as u32;
    ||| 0x09 <= code <= 0x0d
    ||| code == 0x20
    ||| code == 0x85
    ||| code == 0xa0
    ||| code == 0x1680
    ||| 0x2000 <= code <= 0x200a
    ||| code == 0x2028
    ||| code == 0x2029
    ||| code == 0x202f
    ||| code == 0x205f
    ||| code == 0x3000
}

/// `text` without the white space at its two ends.
pub open spec fn trimmed(text: Seq<char>) -> Seq<char>
    decreases text.len(),
{
    if text.len() == 0 {
        text
    } else if white_space(text.first()) {
        trimmed(text.drop_first())
    } else if white_space(text.last()) {
        trimmed(text.drop_last())
    } else {
        text
    }
}

/// Where `c` first stands in `text`; the length of `text` if it stands
/// nowhere.
pub open spec fn position(text: Seq<char>, c: char) -> int
    decreases text.len(),
{
    if text.len() == 0 || text.first() == c {
        0
    } else {
        1 + position(text.drop_first(), c)
    }
}

/// `position` lies within the text or at its end, on `c` if within, and
/// past no earlier `c`.
pub proof fn lemma_position(text: Seq<char>, c: char)
    ensures
        0 <= position(text, c) <= text.len(),
        position(text, c) < text.len() ==> text[position(text, c)] == c,
        forall|i: int| 0 <= i < position(text, c) ==> text[i] != c,
    decreases text.len(),
{
    if text.len() > 0 && text.first() != c {
        let rest = text.drop_first();
        lemma_position(rest, c);
        assert forall|i: int| 0 <= i < position(text, c) implies text[i] != c by {
            if i > 0 {
                assert(rest[i - 1] == text[i]);
            }
        }
    }
}

/// Whether `c` is white space.
fn is_whitespace(c: char) -> (white: bool)
    ensures
        white == white_space(c),
{
    let code: u32 = c as u32;
    (0x09 <= code && code <= 0x0d) || code == 0x20 || code == 0x85 || code == 0xa0 || code
        == 0x1680 || (0x2000 <= code && code <= 0x200a) || code == 0x2028 || code == 0x2029
        || code == 0x202f || code == 0x205f || code == 0x3000
}

/// The bounds of `trimmed` within `chars[from..to]`.
fn trim(chars: &Vec<char>, from: usize, to: usize) -> (bounds: (usize, usize))
    requires
        from <= to <= chars@.len(),
    ensures
        from <= bounds.0 <= bounds.1 <= to,
        chars@.subrange(bounds.0 as int, bounds.1 as int) == trimmed(
            chars@.subrange(from as int, to as int),
        ),
{
    let ghost whole = chars@.subrange(from as int, to as int);
    let mut start: usize = from;
    while start < to && is_whitespace(chars[start])
        invariant
            from <= start <= to <= chars@.len(),
            trimmed(chars@.subrange(start as int, to as int)) == trimmed(whole),
        decreases to - start,
    {
        assert(chars@.subrange(start as int, to as int).drop_first() =~= chars@.subrange(
            start + 1,
            to as int,
        ));
        start = start + 1;
    }
    let mut end: usize = to;
    while start < end && is_whitespace(chars[end - 1])
        invariant
            from <= start <= end <= to <= chars@.len(),
            start < end ==> !white_space(chars@[start as int]),
            trimmed(chars@.subrange(start as int, end as int)) == trimmed(whole),
        decreases end - start,
    {
        assert(chars@.subrange(start as int, end as int).drop_last() =~= chars@.subrange(
            start as int,
            end - 1,
        ));
        end = end - 1;
    }
    (start, end)
}

/// Where `c` first stands in `chars[from..to]`, counted from the start of
/// `chars`; `to` if it stands nowhere in that range.
fn find(chars: &Vec<char>, from: usize, to: usize, c: char) -> (at: usize)
    requires
        from <= to <= chars@.len(),
    ensures
        at == from + position(chars@.subrange(from as int, to as int), c),
        from <= at <= to,
{
    let mut at: usize = from;
    proof {
        lemma_position(chars@.subrange(from as int, to as int), c);
    }
    while at < to && chars[at] != c
        invariant
            from <= at <= to <= chars@.len(),
            from + position(chars@.subrange(from as int, to as int), c) == at + position(
                chars@.subrange(at as int, to as int),
                c,
            ),
        decreases to - at,
    {
        assert(chars@.subrange(at as int, to as int).drop_first() =~= chars@.subrange(
            at + 1,
            to as int,
        ));
        at = at + 1;
    }
    at
}

/// A request that the protocol knows.
#[derive(Debug)]
pub enum Command {
    /// Count one hit on the key.
    Incr(String),
}

/// The key of the `incr` that `text` asks for, if it asks for one: `text`
/// without the white space round it holds a space, what stands before the
/// first space is the word `incr` and nothing else, and the key is all that
/// follows that space.
pub open spec fn request_key(text: Seq<char>) -> Option<Seq<char>> {
    let line = trimmed(text);
    let space = position(line, ' ');
    if space < line.len() && line.subrange(0, space) == "incr"@ {
        Some(line.subrange(space + 1, line.len() as int))
    } else {
        None
    }
}

/// The key of the `incr` that the bytes of one read ask for: none unless
/// they are UTF-8 text that asks for one.
pub open spec fn command_key(bytes: Seq<u8>) -> Option<Seq<char>> {
    if valid_utf8(bytes) {
        request_key(decode_utf8(bytes))
    } else {
        None
    }
}

/// Whether `chars[from..to]` spells `incr`.
fn is_incr(chars: &Vec<char>, from: usize, to: usize) -> (same: bool)
    requires
        from <= to <= chars@.len(),
    ensures
        same == (chars@.subrange(from as int, to as int) == "incr"@),
{
    proof {
        reveal_strlit("incr");
    }
    let same: bool = to - from == 4 && chars[from] == 'i' && chars[from + 1] == 'n' && chars[from
        + 2] == 'c' && chars[from + 3] == 'r';
    proof {
        let word = chars@.subrange(from as int, to as int);
        if same {
            assert(word =~= "incr"@);
        } else if word.len() == 4 {
            assert(word[0] == chars@[from as int]);
            assert(word[1] == chars@[from + 1]);
            assert(word[2] == chars@[from + 2]);
            assert(word[3] == chars@[from + 3]);
        }
    }
    same
}

/// Reads the bytes of one read as a request. Anything but an `incr` with
/// a key is refused.
pub fn read_input(input: &[u8]) -> (parsed: Result<Command, ()>)
    ensures
        match parsed {
            Ok(Command::Incr(key)) => command_key(input@) == Some(key@),
            Err(_) => command_key(input@) is None,
        },
{
    let text: &str = match from_utf8(input) {
        Some(text) => text,
        None => {
            return Err(());
        },
    };
    proof {
        encode_utf8_decode_utf8(text@);
    }
    let chars: Vec<char> = to_chars(text);
    let (start, end) = trim(&chars, 0, chars.len());
    assert(chars@.subrange(0, chars@.len() as int) =~= chars@);
    let ghost line = chars@.subrange(start as int, end as int);
    let space: usize = find(&chars, start, end, ' ');
    if space == end {
        return Err(());
    }
    assert(line.subrange(0, space - start) =~= chars@.subrange(start as int, space as int));
    assert(line.subrange(space - start + 1, line.len() as int) =~= chars@.subrange(
        space + 1,
        end as int,
    ));
    if !is_incr(&chars, start, space) {
        return Err(());
    }
    let key: String = String::from_str(text.substring_char(space + 1, end));
    Ok(Command::Incr(key))
}

/// Whether `c` is one of the digits `0` to `9`.
pub open spec fn is_digit(c: char) -> bool {
    0x30 <= c as u32 <= 0x39
}

/// Whether `text` holds digits only.
pub open spec fn all_digits(text: Seq<char>) -> bool {
    forall|i: int| 0 <= i < text.len() ==> is_digit(#[trigger] text[i])
}

/// The number that the digits of `text` write in base ten.
pub open spec fn number(text: Seq<char>) -> nat
    decreases text.len(),
{
    if text.len() == 0 {
        0
    } else {
        number(text.drop_last()) * 10 + (text.last() as u32 - 0x30) as nat
    }
}

/// More digits do not write a smaller number.
proof fn lemma_number_grows(text: Seq<char>, k: int)
    requires
        all_digits(text),
        0 <= k <= text.len(),
    ensures
        number(text.take(k)) <= number(text),
    decreases text.len() - k,
{
    if k < text.len() {
        lemma_number_grows(text, k + 1);
        assert(text.take(k + 1).drop_last() =~= text.take(k));
    } else {
        assert(text.take(k) =~= text);
    }
}

/// The rule that a key carries in front, and the key that it is for: the
/// key reads `<hits>/<seconds>_<rest>`, with both numbers written in
/// digits and within 32 bits, the window of `seconds` seconds within 32
/// bits as milliseconds, and a `rest` that is not empty and holds no line
/// feed. The result is the capacity, the window in milliseconds, and
/// `rest`.
pub open spec fn specification(key: Seq<char>) -> Option<(u32, u32, Seq<char>)> {
    let slash = position(key, '/');
    let under = position(key, '_');
    let hits = key.subrange(0, slash);
    let seconds = key.subrange(slash + 1, under);
    let rest = key.subrange(under + 1, key.len() as int);
    if 0 < slash && slash + 1 < under && under + 1 < key.len() && all_digits(hits) && all_digits(
        seconds,
    ) && !rest.contains('\n') && number(hits) <= u32::MAX && number(seconds) * 1000 <= u32::MAX {
        Some((number(hits) as u32, (number(seconds) * 1000) as u32, rest))
    } else {
        None
    }
}

/// The number that `chars[from..to]` writes, if these are digits and the
/// number fits in 32 bits.
fn parse_number(chars: &Vec<char>, from: usize, to: usize) -> (parsed: Option<u32>)
    requires
        from <= to <= chars@.len(),
    ensures
        match parsed {
            Some(value) => all_digits(chars@.subrange(from as int, to as int)) && value == number(
                chars@.subrange(from as int, to as int),
            ),
            None => !all_digits(chars@.subrange(from as int, to as int)) || number(
                chars@.subrange(from as int, to as int),
            ) > u32::MAX,
        },
{
    let ghost text = chars@.subrange(from as int, to as int);
    let mut value: u32 = 0;
    let mut i: usize = from;
    while i < to
        invariant
            from <= i <= to <= chars@.len(),
            text == chars@.subrange(from as int, to as int),
            all_digits(text.take(i - from)),
            value == number(text.take(i - from)),
        decreases to - i,
    {
        let code: u32 = chars[i] as u32;
        if code < 0x30 || code > 0x39 {
            assert(!is_digit(text[i - from]));
            return None;
        }
        let ghost longer = text.take(i - from + 1);
        assert(longer.drop_last() =~= text.take(i - from));
        assert(longer.last() == chars@[i as int]);
        assert(all_digits(longer)) by {
            assert forall|j: int| 0 <= j < longer.len() implies is_digit(#[trigger] longer[j]) by {
                if j < i - from {
                    assert(text.take(i - from)[j] == longer[j]);
                }
            }
        }
        let next: Option<u32> = match value.checked_mul(10) {
            Some(tens) => tens.checked_add(code - 0x30),
            None => None,
        };
        match next {
            Some(more) => {
                value = more;
            },
            None => {
                proof {
                    if all_digits(text) {
                        lemma_number_grows(text, i - from + 1);
                    }
                }
                return None;
            },
        }
        i = i + 1;
    }
    assert(text.take(to - from) =~= text);
    Some(value)
}

/// Takes the rule off the front of a key that carries one, by
/// `specification`; any other key carries none.
pub fn parse_specification(keyname: &str) -> (parsed: Option<(u32, u32, String)>)
    ensures
        match parsed {
            Some((hits, duration, key)) => specification(keyname@) == Some((hits, duration, key@)),
            None => specification(keyname@) is None,
        },
{
    let chars: Vec<char> = to_chars(keyname);
    let length: usize = chars.len();
    assert(chars@.subrange(0, length as int) =~= chars@);
    let slash: usize = find(&chars, 0, length, '/');
    let under: usize = find(&chars, 0, length, '_');
    if slash == 0 || under >= length || slash >= under || under - slash < 2 || length - under < 2 {
        return None;
    }
    let hits: u32 = match parse_number(&chars, 0, slash) {
        Some(hits) => hits,
        None => {
            return None;
        },
    };
    let seconds: u32 = match parse_number(&chars, slash + 1, under) {
        Some(seconds) => seconds,
        None => {
            return None;
        },
    };
    let ghost rest = chars@.subrange(under + 1, length as int);
    proof {
        lemma_position(rest, '\n');
    }
    if find(&chars, under + 1, length, '\n') < length {
        assert(rest.contains('\n'));
        return None;
    }
    let duration: u32 = match seconds.checked_mul(1000) {
        Some(duration) => duration,
        None => {
            return None;
        },
    };
    let key: String = String::from_str(keyname.substring_char(under + 1, length));
    Some((hits, duration, key))
}

/// The answer to one request.
#[derive(Debug, Clone, Copy, PartialEq, Eq, Structural)]
pub enum Reply {
    /// The hit is within the limit.
    Admitted,
    /// The hit is over the limit.
    Denied,
    /// The request was not understood, or asked for a rule that is none.
    Error,
}

impl Reply {
    /// The line that tells the reply on the wire.
    pub open spec fn line(self) -> Seq<char> {
        match self {
            Reply::Admitted => "0\r\n"@,
            Reply::Denied => "1\r\n"@,
            Reply::Error => "ERR\r\n"@,
        }
    }

    /// The line that tells the reply on the wire.
    pub fn text(&self) -> (text: &'static str)
        ensures
            text@ == self.line(),
    {
        match self {
            Reply::Admitted => "0\r\n",
            Reply::Denied => "1\r\n",
            Reply::Error => "ERR\r\n",
        }
    }
}

/// What a connection does once a read has returned.
#[derive(Debug, Clone, Copy, PartialEq, Eq, Structural)]
pub enum Action {
    /// Write the reply, then read again.
    Respond(Reply),
    /// Stop: the peer has closed, or the read failed.
    Close,
}

/// What one read asks of the server, and of which of its two structures.
#[derive(Debug)]
pub enum Plan {
    /// Stop: the peer has closed, or the read failed.
    Close,
    /// Answer at once; no limiter is needed.
    Respond(Reply),
    /// Count a hit for the key on the default limiter.
    Default(String),
    /// Count a hit for the key on the limiter of the rule of so many hits
    /// per so many milliseconds.
    Rule(u32, u32, String),
}

/// Whether `planned` is the plan for the outcome `read` of a read: to stop
/// where the read failed or gave nothing, to answer with an error where
/// the bytes ask for no `incr`, and else to count a hit, on the limiter of
/// the rule that the key carries or on the default limiter.
pub open spec fn plan_fits(planned: Plan, read: Option<Seq<u8>>) -> bool {
    match read {
        None => planned is Close,
        Some(bytes) => if bytes.len() == 0 {
            planned is Close
        } else {
            match command_key(bytes) {
                None => planned == Plan::Respond(Reply::Error),
                Some(keyname) => match specification(keyname) {
                    None => match planned {
                        Plan::Default(key) => key@ == keyname,
                        _ => false,
                    },
                    Some((hits, duration, rest)) => match planned {
                        Plan::Rule(h, d, key) => h == hits && d == duration && key@ == rest,
                        _ => false,
                    },
                },
            }
        },
    }
}

/// Tells which limiter an `incr` on `keyname` is for: the limiter of the
/// rule that the key carries in front, with the rest of the key, or else
/// the default limiter, with the whole key.
pub fn handle_incr(keyname: String) -> (planned: Plan)
    ensures
        match specification(keyname@) {
            None => match planned {
                Plan::Default(key) => key@ == keyname@,
                _ => false,
            },
            Some((hits, duration, rest)) => match planned {
                Plan::Rule(h, d, key) => h == hits && d == duration && key@ == rest,
                _ => false,
            },
        },
{
    match parse_specification(keyname.as_str()) {
        Some((hits, duration, key)) => Plan::Rule(hits, duration, key),
        None => Plan::Default(keyname),
    }
}

/// Tells from the outcome of one read what is to be done, and which
/// structure it takes. `read` holds the bytes that the read gave, none of
/// them if the peer has closed; it is `None` if the read failed.
pub fn handle_one(read: Option<&[u8]>) -> (planned: Plan)
    ensures
        plan_fits(
            planned,
            match read {
                Some(input) => Some(input@),
                None => None,
            },
        ),
{
    let input: &[u8] = match read {
        Some(input) => input,
        None => {
            return Plan::Close;
        },
    };
    if input.len() == 0 {
        return Plan::Close;
    }
    match read_input(input) {
        Ok(Command::Incr(keyname)) => handle_incr(keyname),
        Err(_) => Plan::Respond(Reply::Error),
    }
}

/// The step on the default limiter: counts a hit for `key` when the clock
/// reads `now`, and gives the reply.
pub fn serve_default(key: &str, now: u64, ratelimit: &mut Ratelimit) -> (reply: Reply)
    requires
        old(ratelimit).wf(),
    ensures
        final(ratelimit).wf(),
        final(ratelimit)@ == old(ratelimit)@.after_hit(key@, now as int),
        reply == (if old(ratelimit)@.admits(key@, now as int) {
            Reply::Admitted
        } else {
            Reply::Denied
        }),
{
    if ratelimit.hit(key, now) {
        Reply::Admitted
    } else {
        Reply::Denied
    }
}

/// The step on the limiters made on demand: counts a hit for `key` on the
/// limiter of the rule `hits` per `duration` milliseconds, made if need be,
/// and gives the reply. A pair that makes no rule is an error and changes
/// nothing.
pub fn serve_rule(
    hits: u32,
    duration: u32,
    key: &str,
    now: u64,
    collection: &mut RatelimitCollection,
) -> (reply: Reply)
    requires
        old(collection).wf(),
    ensures
        final(collection).wf(),
        valid_bounds(hits, duration) ==> final(collection)@ == old(collection)@.insert(
            (hits, duration),
            instance_of(old(collection)@, hits, duration).after_hit(key@, now as int),
        ) && reply == (if instance_of(old(collection)@, hits, duration).admits(key@, now as int) {
            Reply::Admitted
        } else {
            Reply::Denied
        }),
        !valid_bounds(hits, duration) ==> final(collection)@ == old(collection)@ && reply
            == Reply::Error,
{
    match collection.get_instance(hits, duration) {
        Ok(limiter) => if limiter.hit(key, now) {
            Reply::Admitted
        } else {
            Reply::Denied
        },
        Err(_) => Reply::Error,
    }
}

/// Where a connection stands.
#[derive(Debug, Clone, Copy, PartialEq, Eq, Structural)]
pub enum State {
    /// Waiting for the next request.
    Reading,
    /// Done; nothing more is read or written.
    Closed,
}

/// The state of a connection after `action`, where `written` says whether
/// the transport took and flushed the reply: it goes on reading after a
/// reply that was written, and is closed otherwise.
pub fn next_state(action: &Action, written: bool) -> (state: State)
    ensures
        state == (if action is Respond && written {
            State::Reading
        } else {
            State::Closed
        }),
{
    match action {
        Action::Respond(_) => if written {
            State::Reading
        } else {
            State::Closed
        },
        Action::Close => State::Closed,
    }
}

} // verus!
