//! Framing for the local service's request bodies: the JSON text of a
//! loadout, and the live-selection patch body. The library builds and checks
//! these bytes itself; the outside shell only sends them.

use vstd::prelude::*;
use crate::loadout::Loadout;
use crate::text::dec_str;
use crate::text::dec_str_signed;
use crate::text::i64_to_dec;
use crate::text::u64_to_dec;

verus! {

/// The hexadecimal digit character for a value below sixteen.
pub open spec fn hex_digit(d: int) -> char {
    if d == 0 {
        '0'
    } else if d == 1 {
        '1'
    } else if d == 2 {
        '2'
    } else if d == 3 {
        '3'
    } else if d == 4 {
        '4'
    } else if d == 5 {
        '5'
    } else if d == 6 {
        '6'
    } else if d == 7 {
        '7'
    } else if d == 8 {
        '8'
    } else if d == 9 {
        '9'
    } else if d == 10 {
        'a'
    } else if d == 11 {
        'b'
    } else if d == 12 {
        'c'
    } else if d == 13 {
        'd'
    } else if d == 14 {
        'e'
    } else {
        'f'
    }
}

/// The one-character string for a hexadecimal digit.
fn hex_str(d: u32) -> (r: &'static str)
    requires
        d < 16,
    ensures
        r@ =~= seq![hex_digit(d as int)],
{
    proof {
        reveal_strlit("0");
        reveal_strlit("1");
        reveal_strlit("2");
        reveal_strlit("3");
        reveal_strlit("4");
        reveal_strlit("5");
        reveal_strlit("6");
        reveal_strlit("7");
        reveal_strlit("8");
        reveal_strlit("9");
        reveal_strlit("a");
        reveal_strlit("b");
        reveal_strlit("c");
        reveal_strlit("d");
        reveal_strlit("e");
        reveal_strlit("f");
    }
    if d == 0 {
        "0"
    } else if d == 1 {
        "1"
    } else if d == 2 {
        "2"
    } else if d == 3 {
        "3"
    } else if d == 4 {
        "4"
    } else if d == 5 {
        "5"
    } else if d == 6 {
        "6"
    } else if d == 7 {
        "7"
    } else if d == 8 {
        "8"
    } else if d == 9 {
        "9"
    } else if d == 10 {
        "a"
    } else if d == 11 {
        "b"
    } else if d == 12 {
        "c"
    } else if d == 13 {
        "d"
    } else if d == 14 {
        "e"
    } else {
        "f"
    }
}

/// A character a JSON string can hold verbatim.
pub open spec fn plain_char(c: char) -> bool {
    c != '"' && c != '\\' && c as u32 >= 32
}

/// The escape of one character: quotes and backslashes take a backslash,
/// control characters take the universal escape, everything else stands as
/// it is.
pub open spec fn esc_char(c: char) -> Seq<char> {
    if c == '"' {
        seq!['\\', '"']
    } else if c == '\\' {
        seq!['\\', '\\']
    } else if (c as u32) < 32 {
        seq!['\\', 'u', '0', '0', hex_digit((c as u32 / 16) as int), hex_digit((c as u32 % 16) as int)]
    } else {
        seq![c]
    }
}

/// A string as JSON holds it between quotes.
pub open spec fn json_escaped(s: Seq<char>) -> Seq<char>
    decreases s.len(),
{
    if s.len() == 0 {
        Seq::empty()
    } else {
        json_escaped(s.drop_last()) + esc_char(s.last())
    }
}

/// Escaping distributes over concatenation.
proof fn lemma_escaped_concat(a: Seq<char>, b: Seq<char>)
    ensures
        json_escaped(a + b) == json_escaped(a) + json_escaped(b),
    decreases b.len(),
{
    if b.len() == 0 {
        assert(a + b =~= a);
        assert(json_escaped(a) + json_escaped(b) =~= json_escaped(a));
    } else {
        assert((a + b).drop_last() =~= a + b.drop_last());
        assert((a + b).last() == b.last());
        lemma_escaped_concat(a, b.drop_last());
        assert(json_escaped(a) + json_escaped(b) =~= json_escaped(a) + (json_escaped(b.drop_last())
            + esc_char(b.last())));
        assert(json_escaped(a) + json_escaped(b.drop_last()) + esc_char(b.last()) =~= json_escaped(
            a,
        ) + (json_escaped(b.drop_last()) + esc_char(b.last())));
    }
}

/// A run of plain characters escapes to itself.
proof fn lemma_escaped_plain(s: Seq<char>)
    requires
        forall|k: int| 0 <= k < s.len() ==> plain_char(#[trigger] s[k]),
    ensures
        json_escaped(s) == s,
    decreases s.len(),
{
    if s.len() > 0 {
        lemma_escaped_plain(s.drop_last());
        assert(esc_char(s.last()) == seq![s.last()]);
        assert(json_escaped(s) =~= s);
    }
}

/// Escape a string for embedding in JSON text.
#[verifier::loop_isolation(false)]
pub fn escape_json(s: &str) -> (r: String)
    ensures
        r@ == json_escaped(s@),
{
    let len = s.unicode_len();
    let mut out = String::new();
    let mut start: usize = 0;
    let mut i: usize = 0;
    while i < len
        invariant
            len == s@.len(),
            start <= i <= len,
            out@ == json_escaped(s@.take(start as int)),
            forall|k: int| start <= k < i ==> plain_char(#[trigger] s@[k]),
        decreases len - i,
    {
        let c = s.get_char(i);
        if c == '"' || c == '\\' || (c as u32) < 32 {
            let run = s.substring_char(start, i);
            out.append(run);
            proof {
                lemma_escaped_plain(run@);
                lemma_escaped_concat(s@.take(start as int), run@);
                assert(s@.take(start as int) + run@ =~= s@.take(i as int));
                assert(out@ == json_escaped(s@.take(i as int)));
                assert(s@.take(i + 1).drop_last() =~= s@.take(i as int));
                assert(s@.take(i + 1).last() == s@[i as int]);
            }
            if c == '"' {
                out.append("\\\"");
                proof {
                    reveal_strlit("\\\"");
                    assert("\\\""@ =~= esc_char(c));
                }
            } else if c == '\\' {
                out.append("\\\\");
                proof {
                    reveal_strlit("\\\\");
                    assert("\\\\"@ =~= esc_char(c));
                }
            } else {
                out.append("\\u00");
                let v = c as u32;
                let hi = hex_str(v / 16);
                out.append(hi);
                let lo = hex_str(v % 16);
                out.append(lo);
                proof {
                    reveal_strlit("\\u00");
                    assert("\\u00"@ + hi@ + lo@ =~= esc_char(c));
                }
            }
            proof {
                assert(out@ =~= json_escaped(s@.take(i + 1)));
            }
            start = i + 1;
        }
        i = i + 1;
    }
    let tail = s.substring_char(start, len);
    out.append(tail);
    proof {
        lemma_escaped_plain(tail@);
        lemma_escaped_concat(s@.take(start as int), tail@);
        assert(s@.take(start as int) + tail@ =~= s@);
        assert(out@ == json_escaped(s@));
    }
    out
}

/// The JSON text of a boolean.
pub open spec fn bool_json(b: bool) -> Seq<char> {
    if b {
        "true"@
    } else {
        "false"@
    }
}

/// The boolean literals as strings.
fn bool_str(b: bool) -> (r: &'static str)
    ensures
        r@ == bool_json(b),
{
    if b {
        "true"
    } else {
        "false"
    }
}

/// The comma-separated decimal renderings of the perk ids.
pub open spec fn perks_inner(ps: Seq<i64>) -> Seq<char>
    decreases ps.len(),
{
    if ps.len() == 0 {
        Seq::empty()
    } else if ps.len() == 1 {
        dec_str_signed(ps[0] as int)
    } else {
        perks_inner(ps.drop_last()) + seq![','] + dec_str_signed(ps.last() as int)
    }
}

/// The JSON array of the perk ids.
pub open spec fn perks_json(ps: Seq<i64>) -> Seq<char> {
    seq!['['] + perks_inner(ps) + seq![']']
}

/// Render the perk ids as a JSON array.
#[verifier::loop_isolation(false)]
pub fn perks_to_json(ps: &Vec<i64>) -> (r: String)
    ensures
        r@ == perks_json(ps@),
{
    let mut inner = String::new();
    let mut m: usize = 0;
    while m < ps.len()
        invariant
            m <= ps@.len(),
            inner@ == perks_inner(ps@.take(m as int)),
        decreases ps@.len() - m,
    {
        proof {
            assert(ps@.take(m + 1).drop_last() =~= ps@.take(m as int));
            assert(ps@.take(m + 1).last() == ps@[m as int]);
        }
        if m > 0 {
            inner.append(",");
            proof {
                reveal_strlit(",");
                assert(","@ =~= seq![',']);
            }
        }
        let d = i64_to_dec(ps[m]);
        inner.append(d.as_str());
        proof {
            assert(inner@ =~= perks_inner(ps@.take(m + 1)));
        }
        m = m + 1;
    }
    proof {
        assert(ps@.take(ps@.len() as int) =~= ps@);
    }
    let mut out = "[".to_owned();
    out.append(inner.as_str());
    out.append("]");
    proof {
        reveal_strlit("[");
        reveal_strlit("]");
        assert(out@ =~= perks_json(ps@));
    }
    out
}

/// The JSON text of a loadout, fields in the client's order, the name
/// escaped.
pub open spec fn json_of_loadout(l: Loadout) -> Seq<char> {
    "{\"autoModifiedSelections\":[],\"current\":"@ + bool_json(l.current) + ",\"id\":"@ + dec_str(
        l.id as nat,
    ) + ",\"isActive\":"@ + bool_json(l.is_active) + ",\"isDeletable\":"@ + bool_json(
        l.is_deletable,
    ) + ",\"isEditable\":"@ + bool_json(l.is_editable) + ",\"isValid\":"@ + bool_json(l.is_valid)
        + ",\"lastModified\":"@ + dec_str(l.last_modified as nat) + ",\"name\":\""@ + json_escaped(
        l.name@,
    ) + "\",\"order\":"@ + dec_str(l.order as nat) + ",\"primaryStyleId\":"@ + dec_str_signed(
        l.primary_style_id as int,
    ) + ",\"selectedPerkIds\":"@ + perks_json(l.selected_perk_ids@) + ",\"subStyleId\":"@
        + dec_str_signed(l.sub_style_id as int) + "}"@
}

/// Render a loadout as the JSON body the local service accepts.
pub fn loadout_to_json(l: &Loadout) -> (r: String)
    ensures
        r@ == json_of_loadout(*l),
{
    let mut out = "{\"autoModifiedSelections\":[],\"current\":".to_owned();
    out.append(bool_str(l.current));
    out.append(",\"id\":");
    let id = u64_to_dec(l.id);
    out.append(id.as_str());
    out.append(",\"isActive\":");
    out.append(bool_str(l.is_active));
    out.append(",\"isDeletable\":");
    out.append(bool_str(l.is_deletable));
    out.append(",\"isEditable\":");
    out.append(bool_str(l.is_editable));
    out.append(",\"isValid\":");
    out.append(bool_str(l.is_valid));
    out.append(",\"lastModified\":");
    let lm = u64_to_dec(l.last_modified);
    out.append(lm.as_str());
    out.append(",\"name\":\"");
    let name = escape_json(l.name.as_str());
    out.append(name.as_str());
    out.append("\",\"order\":");
    let ord = u64_to_dec(l.order as u64);
    out.append(ord.as_str());
    out.append(",\"primaryStyleId\":");
    let ps = i64_to_dec(l.primary_style_id);
    out.append(ps.as_str());
    out.append(",\"selectedPerkIds\":");
    let perks = perks_to_json(&l.selected_perk_ids);
    out.append(perks.as_str());
    out.append(",\"subStyleId\":");
    let ss = i64_to_dec(l.sub_style_id);
    out.append(ss.as_str());
    out.append("}");
    proof {
        assert(out@ =~= json_of_loadout(*l));
    }
    out
}

/// The live-selection patch body for an ability pair.
pub open spec fn patch_body_of(p: (u64, u64)) -> Seq<char> {
    "{ \"spell1Id\": "@ + dec_str(p.0 as nat) + ", \"spell2Id\": "@ + dec_str(p.1 as nat) + " }"@
}

/// Render the live-selection patch body for an ability pair.
pub fn ability_patch_body(p: (u64, u64)) -> (r: String)
    ensures
        r@ == patch_body_of(p),
{
    let mut out = "{ \"spell1Id\": ".to_owned();
    let a = u64_to_dec(p.0);
    out.append(a.as_str());
    out.append(", \"spell2Id\": ");
    let b = u64_to_dec(p.1);
    out.append(b.as_str());
    out.append(" }");
    proof {
        assert(out@ =~= patch_body_of(p));
    }
    out
}

} // verus!
