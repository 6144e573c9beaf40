//! The streaming channel's wire grammar. An inbound event frame is a
//! three-element array on one line, `[<code>,"<topic>",<payload>]`: a numeric
//! type code, a quoted topic name, and an arbitrary payload. Empty frames are
//! keepalives and are ignored; anything else that does not match the grammar
//! ends the session. Outbound subscribe requests are built here too.

use vstd::prelude::*;
use crate::text::all_digits;
use crate::text::is_digit;

verus! {

/// Outcome of decoding one inbound text frame.
pub enum FrameDecision {
    /// An empty keepalive frame: nothing to do, the session continues.
    Ignore,
    /// Not a well-formed event frame: the session must be torn down.
    Malformed,
    /// A well-formed event frame: route `payload` to the handlers of `topic`.
    Deliver { topic: String, payload: String },
}

/// Characters a topic name may use on the wire: anything but a quote or a
/// backslash, so the quoted form needs no escaping.
pub open spec fn topic_char(c: char) -> bool {
    c != '"' && c != '\\'
}

/// Every character of `t` is allowed in a topic name.
pub open spec fn topic_chars(t: Seq<char>) -> bool {
    forall|k: int| 0 <= k < t.len() ==> topic_char(#[trigger] t[k])
}

/// `s` is exactly the frame with type code `code`, topic `topic` and payload
/// `payload`.
pub open spec fn frame_form(
    s: Seq<char>,
    code: Seq<char>,
    topic: Seq<char>,
    payload: Seq<char>,
) -> bool {
    &&& code.len() > 0
    &&& all_digits(code)
    &&& topic_chars(topic)
    &&& s == seq!['['] + code + seq![','] + seq!['"'] + topic + seq!['"'] + seq![','] + payload
        + seq![']']
}

/// `s` parses as an event frame for some code, topic and payload.
pub open spec fn well_formed_frame(s: Seq<char>) -> bool {
    exists|c: Seq<char>, t: Seq<char>, p: Seq<char>| frame_form(s, c, t, p)
}

/// Positions of the parts of a well-formed frame within it.
proof fn lemma_form_facts(s: Seq<char>, c: Seq<char>, t: Seq<char>, p: Seq<char>)
    requires
        frame_form(s, c, t, p),
    ensures
        s.len() == c.len() + t.len() + p.len() + 6,
        s[0] == '[',
        forall|k: int| 0 <= k < c.len() ==> #[trigger] s[1 + k] == c[k],
        s[1 + c.len() as int] == ',',
        s[2 + c.len() as int] == '"',
        forall|k: int| 0 <= k < t.len() ==> #[trigger] s[3 + c.len() + k] == t[k],
        s[3 + c.len() + t.len() as int] == '"',
        s[4 + c.len() + t.len() as int] == ',',
        forall|k: int| 0 <= k < p.len() ==> #[trigger] s[5 + c.len() + t.len() + k] == p[k],
        s[s.len() - 1] == ']',
{
    let whole = seq!['['] + c + seq![','] + seq!['"'] + t + seq!['"'] + seq![','] + p + seq![']'];
    assert(s.len() == c.len() + t.len() + p.len() + 6);
    assert(whole[0] == '[');
    assert forall|k: int| 0 <= k < c.len() implies #[trigger] s[1 + k] == c[k] by {
        assert(whole[1 + k] == c[k]);
    }
    assert(whole[1 + c.len() as int] == ',');
    assert(whole[2 + c.len() as int] == '"');
    assert forall|k: int| 0 <= k < t.len() implies #[trigger] s[3 + c.len() + k] == t[k] by {
        assert(whole[3 + c.len() + k] == t[k]);
    }
    assert(whole[3 + c.len() + t.len() as int] == '"');
    assert(whole[4 + c.len() + t.len() as int] == ',');
    assert forall|k: int| 0 <= k < p.len() implies #[trigger] s[5 + c.len() + t.len() + k]
        == p[k] by {
        assert(whole[5 + c.len() + t.len() + k] == p[k]);
    }
    assert(whole[whole.len() - 1] == ']');
}

/// The end of the digit run that starts at `start`.
fn scan_digits(s: &str, start: usize) -> (r: usize)
    requires
        start <= s@.len(),
    ensures
        start <= r <= s@.len(),
        forall|k: int| start <= k < r ==> is_digit(#[trigger] s@[k]),
        r < s@.len() ==> !is_digit(s@[r as int]),
{
    let len = s.unicode_len();
    let mut i = start;
    while i < len
        invariant
            len == s@.len(),
            start <= i <= len,
            forall|k: int| start <= k < i ==> is_digit(#[trigger] s@[k]),
        decreases len - i,
    {
        let c = s.get_char(i);
        if c < '0' || c > '9' {
            return i;
        }
        i = i + 1;
    }
    i
}

/// The end of the topic run that starts at `start`: the first position at or
/// after it holding a quote or a backslash, if any.
fn scan_topic(s: &str, start: usize) -> (r: usize)
    requires
        start <= s@.len(),
    ensures
        start <= r <= s@.len(),
        forall|k: int| start <= k < r ==> s@[k] != '"' && s@[k] != '\\',
        r < s@.len() ==> (s@[r as int] == '"' || s@[r as int] == '\\'),
{
    let len = s.unicode_len();
    let mut i = start;
    while i < len
        invariant
            len == s@.len(),
            start <= i <= len,
            forall|k: int| start <= k < i ==> s@[k] != '"' && s@[k] != '\\',
        decreases len - i,
    {
        let c = s.get_char(i);
        if c == '"' || c == '\\' {
            return i;
        }
        i = i + 1;
    }
    i
}

/// In a well-formed frame the code is exactly the maximal digit run after
/// the opening bracket.
proof fn lemma_code_is_run(s: Seq<char>, c: Seq<char>, t: Seq<char>, p: Seq<char>, i: int)
    requires
        frame_form(s, c, t, p),
        1 <= i <= s.len(),
        forall|k: int| 1 <= k < i ==> is_digit(#[trigger] s[k]),
        i < s.len() ==> !is_digit(s[i]),
    ensures
        c.len() == i - 1,
{
    lemma_form_facts(s, c, t, p);
    if 1 + c.len() < i {
        assert(s[1 + c.len() as int] == ',');
        assert(is_digit(s[1 + c.len() as int]));
        assert(false);
    } else if 1 + c.len() > i {
        if i < s.len() {
            assert(s[1 + (i - 1)] == c[i - 1]);
            assert(is_digit(c[i - 1]));
            assert(!is_digit(s[i]));
            assert(false);
        } else {
            assert(1 + c.len() <= s.len() - 5);
            assert(false);
        }
    }
}

/// In a well-formed frame whose code ends at `i`, the topic ends exactly at
/// the first quote or backslash found from `i + 2` on, and that character is
/// the closing quote.
proof fn lemma_topic_ends_at(
    s: Seq<char>,
    c: Seq<char>,
    t: Seq<char>,
    p: Seq<char>,
    i: int,
    q: int,
)
    requires
        frame_form(s, c, t, p),
        c.len() == i - 1,
        i + 2 <= q <= s.len(),
        forall|k: int| i + 2 <= k < q ==> s[k] != '"' && s[k] != '\\',
        q < s.len() ==> (s[q] == '"' || s[q] == '\\'),
    ensures
        3 + c.len() + t.len() == q,
        q < s.len(),
        s[q] == '"',
{
    lemma_form_facts(s, c, t, p);
    let qq = 3 + c.len() + t.len() as int;
    assert(s[qq] == '"');
    if qq < q {
        assert(s[qq] != '"');
        assert(false);
    } else if qq > q {
        if q < s.len() {
            assert(s[3 + c.len() + (q - i - 2)] == t[q - i - 2]);
            assert(topic_char(t[q - i - 2]));
            assert(false);
        } else {
            assert(qq <= s.len() - 3);
            assert(false);
        }
    }
}

/// Decode one inbound text frame: empty frames are ignored, well-formed
/// event frames are delivered, and everything else is malformed.
#[verifier::rlimit(40)]
pub fn parse_frame(s: &str) -> (r: FrameDecision)
    ensures
        (r is Ignore) <==> s@.len() == 0,
        (r is Malformed) <==> (s@.len() > 0 && !well_formed_frame(s@)),
        (match r {
            FrameDecision::Deliver { topic, payload } => exists|c: Seq<char>|
                frame_form(s@, c, topic@, payload@),
            _ => true,
        }),
{
    let len = s.unicode_len();
    if len == 0 {
        return FrameDecision::Ignore;
    }
    if s.get_char(0) != '[' {
        proof {
            if well_formed_frame(s@) {
                let (c, t, p) = choose|c: Seq<char>, t: Seq<char>, p: Seq<char>|
                    frame_form(s@, c, t, p);
                lemma_form_facts(s@, c, t, p);
            }
        }
        return FrameDecision::Malformed;
    }
    // Scan the digit run that forms the type code.
    let i = scan_digits(s, 1);
    if i == 1 {
        // No digits at all: the code of any decomposition would be empty.
        proof {
            if well_formed_frame(s@) {
                let (c, t, p) = choose|c: Seq<char>, t: Seq<char>, p: Seq<char>|
                    frame_form(s@, c, t, p);
                lemma_form_facts(s@, c, t, p);
                assert(s@[1] == c[0]);
            }
        }
        return FrameDecision::Malformed;
    }
    if i >= len {
        // The whole rest of the frame is digits: no separator can follow.
        proof {
            if well_formed_frame(s@) {
                let (c, t, p) = choose|c: Seq<char>, t: Seq<char>, p: Seq<char>|
                    frame_form(s@, c, t, p);
                lemma_code_is_run(s@, c, t, p, i as int);
                lemma_form_facts(s@, c, t, p);
            }
        }
        return FrameDecision::Malformed;
    }
    if s.get_char(i) != ',' {
        proof {
            if well_formed_frame(s@) {
                let (c, t, p) = choose|c: Seq<char>, t: Seq<char>, p: Seq<char>|
                    frame_form(s@, c, t, p);
                lemma_code_is_run(s@, c, t, p, i as int);
                lemma_form_facts(s@, c, t, p);
                assert(s@[1 + c.len() as int] == ',');
            }
        }
        return FrameDecision::Malformed;
    }
    // From here any decomposition has exactly the scanned run as its code.
    if i + 1 >= len || s.get_char(i + 1) != '"' {
        proof {
            if well_formed_frame(s@) {
                let (c, t, p) = choose|c: Seq<char>, t: Seq<char>, p: Seq<char>|
                    frame_form(s@, c, t, p);
                lemma_code_is_run(s@, c, t, p, i as int);
                lemma_form_facts(s@, c, t, p);
                assert(s@[2 + c.len() as int] == '"');
                assert(2 + c.len() <= s@.len() - 4);
            }
        }
        return FrameDecision::Malformed;
    }
    // Scan the topic up to its closing quote.
    let q = scan_topic(s, i + 2);
    if q >= len || s.get_char(q) != '"' {
        // Unterminated topic, or a backslash inside it.
        proof {
            if well_formed_frame(s@) {
                let (c, t, p) = choose|c: Seq<char>, t: Seq<char>, p: Seq<char>|
                    frame_form(s@, c, t, p);
                lemma_code_is_run(s@, c, t, p, i as int);
                lemma_topic_ends_at(s@, c, t, p, i as int, q as int);
            }
        }
        return FrameDecision::Malformed;
    }
    if q + 1 >= len || s.get_char(q + 1) != ',' {
        proof {
            if well_formed_frame(s@) {
                let (c, t, p) = choose|c: Seq<char>, t: Seq<char>, p: Seq<char>|
                    frame_form(s@, c, t, p);
                lemma_code_is_run(s@, c, t, p, i as int);
                lemma_topic_ends_at(s@, c, t, p, i as int, q as int);
                lemma_form_facts(s@, c, t, p);
                assert(s@[4 + c.len() + t.len() as int] == ',');
                assert(4 + c.len() + t.len() <= s@.len() - 2);
            }
        }
        return FrameDecision::Malformed;
    }
    if len - q < 3 || s.get_char(len - 1) != ']' {
        proof {
            if well_formed_frame(s@) {
                let (c, t, p) = choose|c: Seq<char>, t: Seq<char>, p: Seq<char>|
                    frame_form(s@, c, t, p);
                lemma_code_is_run(s@, c, t, p, i as int);
                lemma_topic_ends_at(s@, c, t, p, i as int, q as int);
                lemma_form_facts(s@, c, t, p);
                assert(s@.len() == q + 3 + p.len());
                assert(s@[s@.len() - 1] == ']');
            }
        }
        return FrameDecision::Malformed;
    }
    let topic = s.substring_char(i + 2, q).to_owned();
    let payload = s.substring_char(q + 2, len - 1).to_owned();
    proof {
        let c = s@.subrange(1, i as int);
        let t = s@.subrange(i + 2, q as int);
        let p = s@.subrange(q + 2, len - 1);
        assert(all_digits(c)) by {
            assert(forall|k: int| 0 <= k < c.len() ==> c[k] == s@[1 + k]);
        }
        assert(topic_chars(t)) by {
            assert(forall|k: int| 0 <= k < t.len() ==> t[k] == s@[i + 2 + k]);
        }
        let whole = seq!['['] + c + seq![','] + seq!['"'] + t + seq!['"'] + seq![','] + p
            + seq![']'];
        assert(s@ =~= whole);
        assert(frame_form(s@, c, t, p));
        assert(topic@ == t && payload@ == p);
        assert(well_formed_frame(s@)) by {
            assert(frame_form(s@, c, t, p));
        }
    }
    let r = FrameDecision::Deliver { topic, payload };
    proof {
        let c = s@.subrange(1, i as int);
        match &r {
            FrameDecision::Deliver { topic: tt, payload: pp } => {
                assert(exists|cw: Seq<char>| frame_form(s@, cw, tt@, pp@)) by {
                    assert(frame_form(s@, c, tt@, pp@));
                }
            },
            _ => {},
        }
    }
    r
}

/// The control frame that subscribes the session to a topic.
pub open spec fn subscribe_frame_form(topic: Seq<char>) -> Seq<char> {
    "[5, \""@ + topic + "\"]"@
}

/// Build the subscribe control frame for a topic.
pub fn make_subscribe_frame(topic: &str) -> (r: String)
    ensures
        r@ == subscribe_frame_form(topic@),
{
    let mut s = "[5, \"".to_owned();
    s.append(topic);
    s.append("\"]");
    s
}

} // verus!
