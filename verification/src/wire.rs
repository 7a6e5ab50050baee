//! The chain's textual wire format.
//!
//! A whole chain crosses the component boundary as one string: a document
//! with a single `events` field holding the entries in append order, each
//! entry carrying its 64-bit `hash` and an `event` object with `type_`,
//! optional `parent`, and `data` byte fields. The encoder emits a canonical
//! text (no inter-token spacing, short escapes for the common control
//! characters, `\u00XX` for the rest); the decoder accepts exactly that
//! canonical grammar and rejects anything else, so decoding never builds a
//! partial chain.

use vstd::prelude::*;
use crate::chain::{Chain, EventModel, MetaEventModel};
use crate::hashing::{chars_to_string, string_to_chars};
use crate::{spec_digit_char, spec_is_digit};

verus! {

/// The opening of the document: a lone `events` field holding a list.
pub open spec fn lit_open() -> Seq<char> {
    seq!['{', '"', 'e', 'v', 'e', 'n', 't', 's', '"', ':', '[']
}

/// The opening of one entry, up to its hash value.
pub open spec fn lit_hash() -> Seq<char> {
    seq!['{', '"', 'h', 'a', 's', 'h', '"', ':']
}

/// Between the hash value and the event's type tag.
pub open spec fn lit_event() -> Seq<char> {
    seq![',', '"', 'e', 'v', 'e', 'n', 't', '"', ':', '{', '"', 't', 'y', 'p', 'e', '_', '"', ':']
}

/// Between the type tag and the parent reference.
pub open spec fn lit_parent() -> Seq<char> {
    seq![',', '"', 'p', 'a', 'r', 'e', 'n', 't', '"', ':']
}

/// Between the parent reference and the payload bytes.
pub open spec fn lit_data() -> Seq<char> {
    seq![',', '"', 'd', 'a', 't', 'a', '"', ':']
}

/// Closes the event object and the entry object.
pub open spec fn lit_entry_close() -> Seq<char> {
    seq![']', '}', '}']
}

/// Closes the entry list and the document.
pub open spec fn lit_close() -> Seq<char> {
    seq![']', '}']
}

/// The absent parent reference.
pub open spec fn lit_null() -> Seq<char> {
    seq!['n', 'u', 'l', 'l']
}

/// Decimal digits of a 64-bit value, most significant first.
pub open spec fn enc_u64(n: u64) -> Seq<char>
    decreases n,
{
    if n < 10 {
        seq![spec_digit_char(n)]
    } else {
        enc_u64(n / 10).push(spec_digit_char(n % 10))
    }
}

/// Lowercase hexadecimal digit for a value below sixteen.
pub open spec fn spec_hex_char(d: u32) -> char
    recommends
        d < 16,
{
    if d < 10 {
        ((d + 48) as u8) as char
    } else {
        ((d + 87) as u8) as char
    }
}

/// The escape of one character inside a quoted string: the quote and the
/// backslash are escaped, the five common control characters use their short
/// escapes, the remaining control characters use `\u00XX`, and everything
/// else stands for itself.
pub open spec fn esc_char(c: char) -> Seq<char> {
    if c == '"' {
        seq!['\\', '"']
    } else if c == '\\' {
        seq!['\\', '\\']
    } else if c == '\u{8}' {
        seq!['\\', 'b']
    } else if c == '\u{9}' {
        seq!['\\', 't']
    } else if c == '\u{a}' {
        seq!['\\', 'n']
    } else if c == '\u{c}' {
        seq!['\\', 'f']
    } else if c == '\u{d}' {
        seq!['\\', 'r']
    } else if (c as u32) < 0x20 {
        seq!['\\', 'u', '0', '0', spec_hex_char((c as u32) / 16), spec_hex_char((c as u32) % 16)]
    } else {
        seq![c]
    }
}

/// The escaped body of a quoted string.
pub open spec fn esc_all(s: Seq<char>) -> Seq<char>
    decreases s.len(),
{
    if s.len() == 0 {
        Seq::empty()
    } else {
        esc_char(s[0]) + esc_all(s.drop_first())
    }
}

/// A quoted, escaped string.
pub open spec fn enc_string(s: Seq<char>) -> Seq<char> {
    seq!['"'] + esc_all(s) + seq!['"']
}

/// The parent reference: `null`, or the parent's hash in decimal.
pub open spec fn enc_parent(p: Option<u64>) -> Seq<char> {
    match p {
        None => lit_null(),
        Some(h) => enc_u64(h),
    }
}

/// The payload bytes after the first, each preceded by a comma.
pub open spec fn enc_bytes_tail(d: Seq<u8>) -> Seq<char>
    decreases d.len(),
{
    if d.len() == 0 {
        Seq::empty()
    } else {
        seq![','] + enc_u64(d[0] as u64) + enc_bytes_tail(d.drop_first())
    }
}

/// The payload bytes as a decimal list body (no brackets).
pub open spec fn enc_bytes_body(d: Seq<u8>) -> Seq<char> {
    if d.len() == 0 {
        Seq::empty()
    } else {
        enc_u64(d[0] as u64) + enc_bytes_tail(d.drop_first())
    }
}

/// One entry: its hash, then the event's three fields. The payload's
/// opening bracket stands here; the closing one is part of the entry close.
pub open spec fn enc_entry(m: MetaEventModel) -> Seq<char> {
    lit_hash() + enc_u64(m.hash) + lit_event() + enc_string(m.event.type_) + lit_parent()
        + enc_parent(m.event.parent) + lit_data() + seq!['['] + enc_bytes_body(m.event.data)
        + lit_entry_close()
}

/// The entries after the first, each preceded by a comma.
pub open spec fn enc_entries_tail(s: Seq<MetaEventModel>) -> Seq<char>
    decreases s.len(),
{
    if s.len() == 0 {
        Seq::empty()
    } else {
        seq![','] + enc_entry(s[0]) + enc_entries_tail(s.drop_first())
    }
}

/// The entry list body (no brackets).
pub open spec fn enc_entries_body(s: Seq<MetaEventModel>) -> Seq<char> {
    if s.len() == 0 {
        Seq::empty()
    } else {
        enc_entry(s[0]) + enc_entries_tail(s.drop_first())
    }
}

/// The whole chain's canonical wire text.
pub open spec fn enc_chain(s: Seq<MetaEventModel>) -> Seq<char> {
    lit_open() + enc_entries_body(s) + lit_close()
}

/// Appends every character of a literal to the output.
fn push_str_chars(out: &mut Vec<char>, s: &str)
    ensures
        final(out)@ == old(out)@ + s@,
{
    let cs = string_to_chars(s);
    let mut i: usize = 0;
    while i < cs.len()
        invariant
            i <= cs@.len(),
            cs@ == s@,
            out@ == old(out)@ + cs@.take(i as int),
        decreases cs@.len() - i,
    {
        out.push(cs[i]);
        proof {
            assert(cs@.take(i + 1) =~= cs@.take(i as int).push(cs@[i as int]));
        }
        i = i + 1;
    }
    proof {
        assert(cs@.take(cs@.len() as int) =~= cs@);
    }
}

/// Appends the decimal digits of a 64-bit value.
fn push_u64(out: &mut Vec<char>, n: u64)
    ensures
        final(out)@ == old(out)@ + enc_u64(n),
    decreases n,
{
    if n >= 10 {
        push_u64(out, n / 10);
    }
    let d = (n % 10) as u8;
    out.push((d + 48) as char);
    proof {
        assert(out@ =~= old(out)@ + enc_u64(n));
    }
}

/// Appends one character in its escaped form.
fn push_escaped(out: &mut Vec<char>, c: char)
    ensures
        final(out)@ == old(out)@ + esc_char(c),
{
    if c == '"' {
        out.push('\\');
        out.push('"');
    } else if c == '\\' {
        out.push('\\');
        out.push('\\');
    } else if c == '\u{8}' {
        out.push('\\');
        out.push('b');
    } else if c == '\u{9}' {
        out.push('\\');
        out.push('t');
    } else if c == '\u{a}' {
        out.push('\\');
        out.push('n');
    } else if c == '\u{c}' {
        out.push('\\');
        out.push('f');
    } else if c == '\u{d}' {
        out.push('\\');
        out.push('r');
    } else if (c as u32) < 0x20 {
        out.push('\\');
        out.push('u');
        out.push('0');
        out.push('0');
        let hi = (c as u32) / 16;
        let lo = (c as u32) % 16;
        out.push(if hi < 10 {
            ((hi + 48) as u8) as char
        } else {
            ((hi + 87) as u8) as char
        });
        out.push(if lo < 10 {
            ((lo + 48) as u8) as char
        } else {
            ((lo + 87) as u8) as char
        });
    } else {
        out.push(c);
    }
    proof {
        assert(out@ =~= old(out)@ + esc_char(c));
    }
}

/// Appends a quoted, escaped string.
fn push_string(out: &mut Vec<char>, s: &String)
    ensures
        final(out)@ == old(out)@ + enc_string(s@),
{
    let cs = string_to_chars(s.as_str());
    out.push('"');
    let ghost pre = out@;
    let mut i: usize = 0;
    while i < cs.len()
        invariant
            i <= cs@.len(),
            cs@ == s@,
            out@ == pre + esc_all(cs@.take(i as int)),
        decreases cs@.len() - i,
    {
        push_escaped(out, cs[i]);
        proof {
            lemma_esc_all_snoc(cs@.take(i as int), cs@[i as int]);
            assert(cs@.take(i + 1) =~= cs@.take(i as int).push(cs@[i as int]));
        }
        i = i + 1;
    }
    out.push('"');
    proof {
        assert(cs@.take(cs@.len() as int) =~= cs@);
        assert(out@ =~= old(out)@ + enc_string(s@));
    }
}

/// Escaping one more character appends that character's escape.
proof fn lemma_esc_all_snoc(s: Seq<char>, c: char)
    ensures
        esc_all(s.push(c)) == esc_all(s) + esc_char(c),
    decreases s.len(),
{
    if s.len() == 0 {
        assert(s.push(c).drop_first() =~= s);
        assert(esc_all(s.push(c)) =~= esc_all(s) + esc_char(c));
    } else {
        assert(s.push(c).drop_first() =~= s.drop_first().push(c));
        lemma_esc_all_snoc(s.drop_first(), c);
        assert(esc_all(s.push(c)) =~= esc_all(s) + esc_char(c));
    }
}

/// Adding one more byte extends the list body with a comma (unless first).
proof fn lemma_bytes_body_snoc(d: Seq<u8>, b: u8)
    ensures
        enc_bytes_body(d.push(b)) == if d.len() == 0 {
            enc_u64(b as u64)
        } else {
            enc_bytes_body(d) + seq![','] + enc_u64(b as u64)
        },
    decreases d.len(),
{
    if d.len() == 0 {
        assert(d.push(b)[0] == b);
        assert(d.push(b).drop_first() =~= Seq::<u8>::empty());
        assert(enc_bytes_body(d.push(b)) =~= enc_u64(b as u64));
    } else {
        assert(d.push(b)[0] == d[0]);
        assert(d.push(b).drop_first() =~= d.drop_first().push(b));
        lemma_bytes_tail_snoc(d.drop_first(), b);
        assert(enc_bytes_body(d.push(b)) =~= enc_bytes_body(d) + seq![','] + enc_u64(b as u64));
    }
}

proof fn lemma_bytes_tail_snoc(d: Seq<u8>, b: u8)
    ensures
        enc_bytes_tail(d.push(b)) == enc_bytes_tail(d) + seq![','] + enc_u64(b as u64),
    decreases d.len(),
{
    if d.len() == 0 {
        assert(d.push(b)[0] == b);
        assert(d.push(b).drop_first() =~= d);
        assert(enc_bytes_tail(d) == Seq::<char>::empty());
        assert(enc_bytes_tail(d.push(b)) =~= enc_bytes_tail(d) + seq![','] + enc_u64(b as u64));
    } else {
        assert(d.push(b)[0] == d[0]);
        assert(d.push(b).drop_first() =~= d.drop_first().push(b));
        lemma_bytes_tail_snoc(d.drop_first(), b);
        assert(enc_bytes_tail(d.push(b)) =~= enc_bytes_tail(d) + seq![','] + enc_u64(b as u64));
    }
}

/// Adding one more entry extends the list body with a comma (unless first).
proof fn lemma_entries_body_snoc(s: Seq<MetaEventModel>, m: MetaEventModel)
    ensures
        enc_entries_body(s.push(m)) == if s.len() == 0 {
            enc_entry(m)
        } else {
            enc_entries_body(s) + seq![','] + enc_entry(m)
        },
    decreases s.len(),
{
    if s.len() == 0 {
        assert(s.push(m)[0] == m);
        assert(s.push(m).drop_first() =~= Seq::<MetaEventModel>::empty());
        assert(enc_entries_body(s.push(m)) =~= enc_entry(m));
    } else {
        assert(s.push(m)[0] == s[0]);
        assert(s.push(m).drop_first() =~= s.drop_first().push(m));
        lemma_entries_tail_snoc(s.drop_first(), m);
        assert(enc_entries_body(s.push(m)) =~= enc_entries_body(s) + seq![','] + enc_entry(m));
    }
}

proof fn lemma_entries_tail_snoc(s: Seq<MetaEventModel>, m: MetaEventModel)
    ensures
        enc_entries_tail(s.push(m)) == enc_entries_tail(s) + seq![','] + enc_entry(m),
    decreases s.len(),
{
    if s.len() == 0 {
        assert(s.push(m)[0] == m);
        assert(s.push(m).drop_first() =~= s);
        assert(enc_entries_tail(s) == Seq::<char>::empty());
        assert(enc_entries_tail(s.push(m)) =~= enc_entries_tail(s) + seq![','] + enc_entry(m));
    } else {
        assert(s.push(m)[0] == s[0]);
        assert(s.push(m).drop_first() =~= s.drop_first().push(m));
        lemma_entries_tail_snoc(s.drop_first(), m);
        assert(enc_entries_tail(s.push(m)) =~= enc_entries_tail(s) + seq![','] + enc_entry(m));
    }
}

/// Appends the decimal list of payload bytes, brackets included.
fn push_bytes(out: &mut Vec<char>, d: &Vec<u8>)
    ensures
        final(out)@ == old(out)@ + seq!['['] + enc_bytes_body(d@) + seq![']'],
{
    out.push('[');
    let ghost pre = out@;
    let mut i: usize = 0;
    while i < d.len()
        invariant
            i <= d@.len(),
            out@ == pre + enc_bytes_body(d@.take(i as int)),
        decreases d@.len() - i,
    {
        if i > 0 {
            out.push(',');
        }
        push_u64(out, d[i] as u64);
        proof {
            lemma_bytes_body_snoc(d@.take(i as int), d@[i as int]);
            assert(d@.take(i + 1) =~= d@.take(i as int).push(d@[i as int]));
            assert(out@ =~= pre + enc_bytes_body(d@.take(i + 1)));
        }
        i = i + 1;
    }
    out.push(']');
    proof {
        assert(d@.take(d@.len() as int) =~= d@);
        assert(out@ =~= old(out)@ + seq!['['] + enc_bytes_body(d@) + seq![']']);
    }
}

/// Encodes a whole chain into its canonical wire text.
pub fn encode_chain(c: &Chain) -> (r: String)
    ensures
        r@ == enc_chain(c@),
{
    let mut out: Vec<char> = Vec::new();
    push_str_chars(&mut out, "{\"events\":[");
    proof {
        reveal_strlit("{\"events\":[");
        assert(("{\"events\":[")@ =~= lit_open());
        assert(out@ =~= lit_open());
    }
    let ghost pre = out@;
    let n = c.len();
    let mut i: usize = 0;
    while i < n
        invariant
            n == c@.len(),
            i <= n,
            out@ == pre + enc_entries_body(c@.take(i as int)),
        decreases n - i,
    {
        if i > 0 {
            out.push(',');
        }
        let m = c.entry_at(i);
        push_entry(&mut out, m);
        proof {
            lemma_entries_body_snoc(c@.take(i as int), c@[i as int]);
            assert(c@.take(i + 1) =~= c@.take(i as int).push(c@[i as int]));
            assert(out@ =~= pre + enc_entries_body(c@.take(i + 1)));
        }
        i = i + 1;
    }
    push_str_chars(&mut out, "]}");
    proof {
        reveal_strlit("]}");
        assert(("]}")@ =~= lit_close());
        assert(c@.take(c@.len() as int) =~= c@);
        assert(out@ =~= enc_chain(c@));
    }
    chars_to_string(&out)
}

/// Appends one entry's text.
fn push_entry(out: &mut Vec<char>, m: &crate::chain::MetaEvent)
    ensures
        final(out)@ == old(out)@ + enc_entry(m@),
{
    push_str_chars(out, "{\"hash\":");
    proof {
        reveal_strlit("{\"hash\":");
        assert(("{\"hash\":")@ =~= lit_hash());
    }
    push_u64(out, m.hash());
    push_str_chars(out, ",\"event\":{\"type_\":");
    proof {
        reveal_strlit(",\"event\":{\"type_\":");
        assert((",\"event\":{\"type_\":")@ =~= lit_event());
    }
    push_string(out, m.event().type_());
    push_str_chars(out, ",\"parent\":");
    proof {
        reveal_strlit(",\"parent\":");
        assert((",\"parent\":")@ =~= lit_parent());
    }
    match m.event().parent() {
        None => {
            push_str_chars(out, "null");
            proof {
                reveal_strlit("null");
                assert(("null")@ =~= lit_null());
            }
        },
        Some(h) => {
            push_u64(out, h);
        },
    }
    push_str_chars(out, ",\"data\":");
    proof {
        reveal_strlit(",\"data\":");
        assert((",\"data\":")@ =~= lit_data());
    }
    push_bytes(out, m.event().data());
    push_str_chars(out, "}}");
    proof {
        reveal_strlit("}}");
        assert(("}}")@ =~= seq!['}', '}']);
        assert(lit_entry_close() =~= seq![']'] + seq!['}', '}']);
        assert(out@ =~= old(out)@ + enc_entry(m@));
    }
}

} // verus!

verus! {

/// True when `t` begins with `lit`.
pub open spec fn starts_with(t: Seq<char>, lit: Seq<char>) -> bool {
    lit.len() <= t.len() && t.take(lit.len() as int) == lit
}

/// True when the character is a lowercase hexadecimal digit.
pub open spec fn spec_is_hex(c: char) -> bool {
    spec_is_digit(c) || ('a' <= c && c <= 'f')
}

/// The value of a lowercase hexadecimal digit.
pub open spec fn spec_hex_val(c: char) -> u32
    recommends
        spec_is_hex(c),
{
    if spec_is_digit(c) {
        ((c as u32) - 48) as u32
    } else {
        ((c as u32) - 87) as u32
    }
}

/// Parses a run of decimal digits left to right, extending `acc`; stops at
/// the first non-digit. Yields the value and the count of digits consumed,
/// or nothing on 64-bit overflow.
pub open spec fn sp_digits(t: Seq<char>, acc: u64) -> Option<(u64, int)>
    decreases t.len(),
{
    if t.len() == 0 || !spec_is_digit(t[0]) {
        Some((acc, 0))
    } else {
        let d = (t[0] as u32) - 48;
        if acc * 10 + d > u64::MAX {
            None
        } else {
            match sp_digits(t.drop_first(), (acc * 10 + d) as u64) {
                None => None,
                Some((v, k)) => Some((v, k + 1)),
            }
        }
    }
}

/// Parses a decimal 64-bit number: at least one digit, no overflow.
pub open spec fn sp_u64(t: Seq<char>) -> Option<(u64, int)> {
    if t.len() == 0 || !spec_is_digit(t[0]) {
        None
    } else {
        sp_digits(t, 0)
    }
}

/// Parses one escape, starting at the character after the backslash.
pub open spec fn sp_escape(t: Seq<char>) -> Option<(char, int)> {
    if t.len() == 0 {
        None
    } else if t[0] == '"' {
        Some(('"', 1))
    } else if t[0] == '\\' {
        Some(('\\', 1))
    } else if t[0] == '/' {
        Some(('/', 1))
    } else if t[0] == 'b' {
        Some(('\u{8}', 1))
    } else if t[0] == 't' {
        Some(('\u{9}', 1))
    } else if t[0] == 'n' {
        Some(('\u{a}', 1))
    } else if t[0] == 'f' {
        Some(('\u{c}', 1))
    } else if t[0] == 'r' {
        Some(('\u{d}', 1))
    } else if t[0] == 'u' {
        if t.len() >= 5 && t[1] == '0' && t[2] == '0' && spec_is_hex(t[3]) && spec_is_hex(t[4]) {
            Some(((((spec_hex_val(t[3]) * 16 + spec_hex_val(t[4])) as u8) as char), 5))
        } else {
            None
        }
    } else {
        None
    }
}

/// Parses a string body up to and including the closing quote. Raw control
/// characters are rejected; escapes are decoded.
pub open spec fn sp_str_body(t: Seq<char>) -> Option<(Seq<char>, int)>
    decreases t.len(),
{
    if t.len() == 0 {
        None
    } else if t[0] == '"' {
        Some((Seq::empty(), 1))
    } else if t[0] == '\\' {
        match sp_escape(t.drop_first()) {
            None => None,
            Some((c, k)) => if 0 <= k && k + 1 <= t.len() {
                match sp_str_body(t.skip(k + 1)) {
                    None => None,
                    Some((s, k2)) => Some((seq![c] + s, k + 1 + k2)),
                }
            } else {
                None
            },
        }
    } else if (t[0] as u32) >= 0x20 {
        match sp_str_body(t.drop_first()) {
            None => None,
            Some((s, k)) => Some((seq![t[0]] + s, k + 1)),
        }
    } else {
        None
    }
}

/// Parses a quoted string.
pub open spec fn sp_string(t: Seq<char>) -> Option<(Seq<char>, int)> {
    if t.len() > 0 && t[0] == '"' {
        match sp_str_body(t.drop_first()) {
            None => None,
            Some((s, k)) => Some((s, k + 1)),
        }
    } else {
        None
    }
}

/// Parses one payload byte: a decimal number no larger than 255.
pub open spec fn sp_byte(t: Seq<char>) -> Option<(u8, int)> {
    match sp_u64(t) {
        None => None,
        Some((v, k)) => if v <= 255 {
            Some((v as u8, k))
        } else {
            None
        },
    }
}

/// Parses a non-empty byte list body up to and including its `]`.
pub open spec fn sp_bytes_rest(t: Seq<char>) -> Option<(Seq<u8>, int)>
    decreases t.len(),
{
    match sp_byte(t) {
        None => None,
        Some((b, k)) => if 1 <= k && k < t.len() {
            if t[k] == ']' {
                Some((seq![b], k + 1))
            } else if t[k] == ',' {
                match sp_bytes_rest(t.skip(k + 1)) {
                    None => None,
                    Some((d, k2)) => Some((seq![b] + d, k + 1 + k2)),
                }
            } else {
                None
            }
        } else {
            None
        },
    }
}

/// Parses a bracketed byte list.
pub open spec fn sp_bytes(t: Seq<char>) -> Option<(Seq<u8>, int)> {
    if t.len() >= 2 && t[0] == '[' {
        if t[1] == ']' {
            Some((Seq::empty(), 2))
        } else {
            match sp_bytes_rest(t.drop_first()) {
                None => None,
                Some((d, k)) => Some((d, k + 1)),
            }
        }
    } else {
        None
    }
}

/// Parses a parent reference: `null` or a decimal hash.
pub open spec fn sp_parent(t: Seq<char>) -> Option<(Option<u64>, int)> {
    if starts_with(t, lit_null()) {
        Some((None, 4))
    } else {
        match sp_u64(t) {
            None => None,
            Some((v, k)) => Some((Some(v), k)),
        }
    }
}

/// Parses one entry object.
#[verifier::opaque]
pub open spec fn sp_entry(t: Seq<char>) -> Option<(MetaEventModel, int)> {
    if !starts_with(t, lit_hash()) {
        None
    } else {
        let p1 = lit_hash().len() as int;
        match sp_u64(t.skip(p1)) {
            None => None,
            Some((h, k1)) => {
                let p2 = p1 + k1;
                if !(p2 <= t.len() && starts_with(t.skip(p2), lit_event())) {
                    None
                } else {
                    let p3 = p2 + lit_event().len();
                    match sp_string(t.skip(p3)) {
                        None => None,
                        Some((ty, k2)) => {
                            let p4 = p3 + k2;
                            if !(p4 <= t.len() && starts_with(t.skip(p4), lit_parent())) {
                                None
                            } else {
                                let p5 = p4 + lit_parent().len();
                                match sp_parent(t.skip(p5)) {
                                    None => None,
                                    Some((par, k3)) => {
                                        let p6 = p5 + k3;
                                        if !(p6 <= t.len() && starts_with(
                                            t.skip(p6),
                                            lit_data(),
                                        )) {
                                            None
                                        } else {
                                            let p7 = p6 + lit_data().len();
                                            match sp_bytes(t.skip(p7)) {
                                                None => None,
                                                Some((d, k4)) => {
                                                    let p8 = p7 + k4;
                                                    if !(p8 <= t.len() && starts_with(
                                                        t.skip(p8),
                                                        seq!['}', '}'],
                                                    )) {
                                                        None
                                                    } else {
                                                        Some(
                                                            (
                                                                MetaEventModel {
                                                                    hash: h,
                                                                    event: EventModel {
                                                                        type_: ty,
                                                                        parent: par,
                                                                        data: d,
                                                                    },
                                                                },
                                                                p8 + 2,
                                                            ),
                                                        )
                                                    }
                                                },
                                            }
                                        }
                                    },
                                }
                            }
                        },
                    }
                }
            },
        }
    }
}

/// Parses a non-empty entry list up to and including its closing `]`.
pub open spec fn sp_entries_rest(t: Seq<char>) -> Option<(Seq<MetaEventModel>, int)>
    decreases t.len(),
{
    match sp_entry(t) {
        None => None,
        Some((m, k)) => if 1 <= k && k < t.len() {
            if t[k] == ']' {
                Some((seq![m], k + 1))
            } else if t[k] == ',' {
                match sp_entries_rest(t.skip(k + 1)) {
                    None => None,
                    Some((s, k2)) => Some((seq![m] + s, k + 1 + k2)),
                }
            } else {
                None
            }
        } else {
            None
        },
    }
}

/// Parses a whole chain document.
pub open spec fn sp_chain(t: Seq<char>) -> Option<(Seq<MetaEventModel>, int)> {
    if !starts_with(t, lit_open()) {
        None
    } else {
        let p = lit_open().len() as int;
        if p + 2 <= t.len() && t[p] == ']' && t[p + 1] == '}' {
            Some((Seq::empty(), p + 2))
        } else {
            match sp_entries_rest(t.skip(p)) {
                None => None,
                Some((s, k)) => {
                    let q = p + k;
                    if q < t.len() && t[q] == '}' {
                        Some((s, q + 1))
                    } else {
                        None
                    }
                },
            }
        }
    }
}

/// The chain a wire text decodes to: the parse must consume every character.
pub open spec fn dec_chain(t: Seq<char>) -> Option<Seq<MetaEventModel>> {
    match sp_chain(t) {
        None => None,
        Some((s, k)) => if k == t.len() {
            Some(s)
        } else {
            None
        },
    }
}

} // verus!

verus! {

/// Every character is a decimal digit.
pub open spec fn all_digits(t: Seq<char>) -> bool {
    forall|i: int| 0 <= i < t.len() ==> spec_is_digit(t[i])
}

/// The value of a digit character.
pub open spec fn dval(c: char) -> int {
    (c as u32) - 48
}

/// The value a left-to-right digit scan accumulates.
pub open spec fn val_left(t: Seq<char>, acc: int) -> int
    decreases t.len(),
{
    if t.len() == 0 {
        acc
    } else {
        val_left(t.drop_first(), acc * 10 + dval(t[0]))
    }
}

proof fn lemma_val_left_mono(t: Seq<char>, acc: int)
    requires
        all_digits(t),
        acc >= 0,
    ensures
        val_left(t, acc) >= acc,
    decreases t.len(),
{
    if t.len() > 0 {
        assert(spec_is_digit(t[0]));
        assert(dval(t[0]) >= 0);
        assert(forall|i: int|
            0 <= i < t.drop_first().len() ==> spec_is_digit(#[trigger] t.drop_first()[i]));
        lemma_val_left_mono(t.drop_first(), acc * 10 + dval(t[0]));
    }
}

proof fn lemma_val_left_snoc(t: Seq<char>, c: char, acc: int)
    ensures
        val_left(t.push(c), acc) == val_left(t, acc) * 10 + dval(c),
    decreases t.len(),
{
    if t.len() == 0 {
        assert(t.push(c)[0] == c);
        assert(t.push(c).drop_first() =~= t);
        assert(val_left(t, acc) == acc);
        assert(val_left(t.push(c), acc) == val_left(t, acc * 10 + dval(c)));
    } else {
        assert(t.push(c)[0] == t[0]);
        assert(t.push(c).drop_first() =~= t.drop_first().push(c));
        lemma_val_left_snoc(t.drop_first(), c, acc * 10 + dval(t[0]));
    }
}

/// The digits of a 64-bit value are digits, there is at least one, and
/// scanning them from any starting accumulator recovers the value.
proof fn lemma_enc_u64_shape(n: u64)
    ensures
        enc_u64(n).len() >= 1,
        all_digits(enc_u64(n)),
        val_left(enc_u64(n), 0) == n,
    decreases n,
{
    if n < 10 {
        assert(spec_is_digit(spec_digit_char(n as u64)));
        assert(dval(spec_digit_char(n as u64)) == n);
        assert(enc_u64(n)[0] == spec_digit_char(n as u64));
        assert(enc_u64(n).drop_first() =~= Seq::<char>::empty());
        assert(val_left(Seq::<char>::empty(), dval(spec_digit_char(n as u64))) == dval(
            spec_digit_char(n as u64),
        ));
        assert(val_left(enc_u64(n), 0) == n);
    } else {
        lemma_enc_u64_shape(n / 10);
        lemma_val_left_snoc(enc_u64(n / 10), spec_digit_char(n % 10), 0);
        assert(spec_is_digit(spec_digit_char(n % 10)));
        assert(dval(spec_digit_char(n % 10)) == n % 10);
        assert(forall|i: int|
            0 <= i < enc_u64(n).len() ==> spec_is_digit(#[trigger] enc_u64(n)[i])) by {
            assert(forall|i: int|
                0 <= i < enc_u64(n / 10).len() ==> spec_is_digit(#[trigger] enc_u64(n / 10)[i]));
            assert(enc_u64(n).len() == enc_u64(n / 10).len() + 1);
            assert(forall|i: int| 0 <= i < enc_u64(n / 10).len() ==> enc_u64(n)[i] == enc_u64(
                n / 10,
            )[i]);
            assert(enc_u64(n).last() == spec_digit_char(n % 10));
        }
    }
}

/// Scanning a digit run followed by a non-digit yields the scanned value
/// and consumes exactly the run.
proof fn lemma_sp_digits_run(d: Seq<char>, rest: Seq<char>, acc: u64)
    requires
        all_digits(d),
        val_left(d, acc as int) <= u64::MAX,
        rest.len() == 0 || !spec_is_digit(rest[0]),
    ensures
        sp_digits(d + rest, acc) == Some((val_left(d, acc as int) as u64, d.len() as int)),
    decreases d.len(),
{
    let t = d + rest;
    if d.len() == 0 {
        assert(t =~= rest);
    } else {
        assert(t[0] == d[0]);
        assert(spec_is_digit(d[0]));
        let dv = dval(d[0]);
        assert(forall|i: int|
            0 <= i < d.drop_first().len() ==> spec_is_digit(#[trigger] d.drop_first()[i]));
        assert(val_left(d, acc as int) == val_left(d.drop_first(), acc * 10 + dv));
        lemma_val_left_mono(d.drop_first(), acc * 10 + dv);
        assert(acc * 10 + dv <= u64::MAX);
        assert(t.drop_first() =~= d.drop_first() + rest);
        lemma_sp_digits_run(d.drop_first(), rest, (acc * 10 + dv) as u64);
    }
}

/// Parsing the encoding of a 64-bit value followed by a non-digit yields
/// that value and consumes exactly the encoding.
proof fn lemma_sp_u64_complete(n: u64, rest: Seq<char>)
    requires
        rest.len() == 0 || !spec_is_digit(rest[0]),
    ensures
        sp_u64(enc_u64(n) + rest) == Some((n, enc_u64(n).len() as int)),
{
    lemma_enc_u64_shape(n);
    let t = enc_u64(n) + rest;
    assert(t[0] == enc_u64(n)[0]);
    lemma_sp_digits_run(enc_u64(n), rest, 0);
}

/// A hexadecimal digit character for a small value is one, and reads back
/// as that value.
proof fn lemma_hex_char(d: u32)
    requires
        d < 16,
    ensures
        spec_is_hex(spec_hex_char(d)),
        spec_hex_val(spec_hex_char(d)) == d,
{
}

/// A control character survives the trip through its two hex digits.
proof fn lemma_low_char_roundtrip(c: char)
    requires
        (c as u32) < 0x20,
    ensures
        (((c as u32) as u8) as char) == c,
{
    let x = c as u32;
    assert(x as u8 == x);
    assert(((x as u8) as char) == (x as char));
    assert((x as char) == c);
}

/// Parsing the escaped body of a string, followed by the closing quote and
/// anything after it, recovers the string and consumes body and quote.
proof fn lemma_sp_str_body_complete(s: Seq<char>, rest: Seq<char>)
    ensures
        sp_str_body(esc_all(s) + seq!['"'] + rest) == Some((s, esc_all(s).len() as int + 1)),
    decreases s.len(),
{
    let t = esc_all(s) + seq!['"'] + rest;
    if s.len() == 0 {
        assert(t =~= seq!['"'] + rest);
        assert(t[0] == '"');
        assert(s =~= Seq::<char>::empty());
    } else {
        let c = s[0];
        let e = esc_char(c);
        let tail = esc_all(s.drop_first()) + seq!['"'] + rest;
        assert(esc_all(s) == e + esc_all(s.drop_first()));
        assert(t =~= e + tail);
        lemma_sp_str_body_complete(s.drop_first(), rest);
        assert(seq![c] + s.drop_first() =~= s);
        if c == '"' || c == '\\' || c == '\u{8}' || c == '\u{9}' || c == '\u{a}' || c == '\u{c}'
            || c == '\u{d}' {
            assert(t[0] == '\\');
            assert(t.drop_first() =~= e.drop_first() + tail);
            assert(t.drop_first()[0] == e[1]);
            assert(sp_escape(t.drop_first()) == Some((c, 1int)));
            assert(t.skip(2) =~= tail);
        } else if (c as u32) < 0x20 {
            let x = c as u32;
            assert(t[0] == '\\');
            let te = t.drop_first();
            assert(te =~= seq!['u', '0', '0', spec_hex_char(x / 16), spec_hex_char(x % 16)] + tail);
            assert(te[0] == 'u');
            assert(te.len() >= 5);
            assert(te[1] == '0');
            assert(te[2] == '0');
            assert(te[3] == spec_hex_char(x / 16));
            assert(te[4] == spec_hex_char(x % 16));
            lemma_hex_char(x / 16);
            lemma_hex_char(x % 16);
            assert(spec_hex_val(te[3]) * 16 + spec_hex_val(te[4]) == x);
            lemma_low_char_roundtrip(c);
            assert(sp_escape(te) == Some((c, 5int)));
            assert(t.skip(6) =~= tail);
        } else {
            assert(e =~= seq![c]);
            assert(t[0] == c);
            assert(t.drop_first() =~= tail);
        }
    }
}

/// Parsing an encoded string recovers it exactly.
proof fn lemma_sp_string_complete(s: Seq<char>, rest: Seq<char>)
    ensures
        sp_string(enc_string(s) + rest) == Some((s, enc_string(s).len() as int)),
{
    let t = enc_string(s) + rest;
    assert(t[0] == '"');
    assert(t.drop_first() =~= esc_all(s) + seq!['"'] + rest);
    lemma_sp_str_body_complete(s, rest);
}

} // verus!

verus! {

/// The comma-led byte tail is a comma followed by the byte list body.
proof fn lemma_bytes_tail_body(d: Seq<u8>)
    requires
        d.len() >= 1,
    ensures
        enc_bytes_tail(d) =~= seq![','] + enc_bytes_body(d),
{
}

/// Parsing a non-empty encoded byte list body followed by `]` recovers the
/// bytes and consumes body and bracket.
proof fn lemma_sp_bytes_rest_complete(d: Seq<u8>, rest: Seq<char>)
    requires
        d.len() >= 1,
    ensures
        sp_bytes_rest(enc_bytes_body(d) + seq![']'] + rest) == Some(
            (d, enc_bytes_body(d).len() as int + 1),
        ),
    decreases d.len(),
{
    let t = enc_bytes_body(d) + seq![']'] + rest;
    let h = enc_u64(d[0] as u64);
    lemma_enc_u64_shape(d[0] as u64);
    if d.len() == 1 {
        assert(enc_bytes_body(d) =~= h);
        assert(t =~= h + (seq![']'] + rest));
        assert((seq![']'] + rest)[0] == ']');
        lemma_sp_u64_complete(d[0] as u64, seq![']'] + rest);
        assert(t[h.len() as int] == ']');
        assert(seq![d[0]] =~= d);
    } else {
        lemma_bytes_tail_body(d.drop_first());
        assert(enc_bytes_body(d) =~= h + seq![','] + enc_bytes_body(d.drop_first()));
        let after = seq![','] + enc_bytes_body(d.drop_first()) + seq![']'] + rest;
        assert(t =~= h + after);
        assert(after[0] == ',');
        lemma_sp_u64_complete(d[0] as u64, after);
        assert(t[h.len() as int] == ',');
        assert(t.skip(h.len() as int + 1) =~= enc_bytes_body(d.drop_first()) + seq![']'] + rest);
        lemma_sp_bytes_rest_complete(d.drop_first(), rest);
        assert(seq![d[0]] + d.drop_first() =~= d);
    }
}

/// Parsing an encoded byte list recovers it exactly.
proof fn lemma_sp_bytes_complete(d: Seq<u8>, rest: Seq<char>)
    ensures
        sp_bytes(seq!['['] + enc_bytes_body(d) + seq![']'] + rest) == Some(
            (d, enc_bytes_body(d).len() as int + 2),
        ),
{
    let t = seq!['['] + enc_bytes_body(d) + seq![']'] + rest;
    assert(t[0] == '[');
    if d.len() == 0 {
        assert(t[1] == ']');
        assert(d =~= Seq::<u8>::empty());
    } else {
        lemma_enc_u64_shape(d[0] as u64);
        assert(t[1] == enc_u64(d[0] as u64)[0]);
        assert(spec_is_digit(t[1]));
        assert(t[1] != ']');
        assert(t.drop_first() =~= enc_bytes_body(d) + seq![']'] + rest);
        lemma_sp_bytes_rest_complete(d, rest);
    }
}

/// Parsing an encoded parent reference recovers it exactly; what follows
/// must not begin with a digit.
proof fn lemma_sp_parent_complete(p: Option<u64>, rest: Seq<char>)
    requires
        rest.len() == 0 || !spec_is_digit(rest[0]),
    ensures
        sp_parent(enc_parent(p) + rest) == Some((p, enc_parent(p).len() as int)),
{
    let t = enc_parent(p) + rest;
    match p {
        None => {
            assert(t.take(4) =~= lit_null());
            assert(starts_with(t, lit_null()));
        },
        Some(h) => {
            lemma_enc_u64_shape(h);
            assert(t[0] == enc_u64(h)[0]);
            assert(spec_is_digit(t[0]));
            if starts_with(t, lit_null()) {
                assert(t[0] == 'n');
                assert(false);
            }
            lemma_sp_u64_complete(h, rest);
        },
    }
}

/// Splitting a concatenation at the seam recovers its parts.
proof fn lemma_concat_parts(a: Seq<char>, b: Seq<char>)
    ensures
        (a + b).take(a.len() as int) =~= a,
        (a + b).skip(a.len() as int) =~= b,
        (a + b).len() == a.len() + b.len(),
{
}

/// Skipping in two stages is skipping once.
proof fn lemma_skip_skip(t: Seq<char>, a: int, b: int)
    requires
        0 <= a,
        0 <= b,
        a + b <= t.len(),
    ensures
        t.skip(a + b) =~= t.skip(a).skip(b),
{
}

/// The encoded entry followed by anything, reassociated at its seams.
#[verifier::rlimit(100)]
#[verifier::spinoff_prover]
proof fn lemma_entry_shape(m: MetaEventModel, rest: Seq<char>)
    ensures
        enc_entry(m) + rest == lit_hash() + (enc_u64(m.hash) + (lit_event() + (enc_string(
            m.event.type_,
        ) + (lit_parent() + (enc_parent(m.event.parent) + (lit_data() + ((seq!['['] + enc_bytes_body(
            m.event.data,
        ) + seq![']']) + (seq!['}', '}'] + rest)))))))),
{
    assert(enc_entry(m) + rest =~= lit_hash() + (enc_u64(m.hash) + (lit_event() + (enc_string(
        m.event.type_,
    ) + (lit_parent() + (enc_parent(m.event.parent) + (lit_data() + ((seq!['['] + enc_bytes_body(
        m.event.data,
    ) + seq![']']) + (seq!['}', '}'] + rest)))))))));
}

/// Seam positions inside an encoded entry.
pub open spec fn ep2(m: MetaEventModel) -> int {
    8 + enc_u64(m.hash).len() as int
}

pub open spec fn ep3(m: MetaEventModel) -> int {
    ep2(m) + 18
}

pub open spec fn ep4(m: MetaEventModel) -> int {
    ep3(m) + enc_string(m.event.type_).len() as int
}

pub open spec fn ep5(m: MetaEventModel) -> int {
    ep4(m) + 10
}

pub open spec fn ep6(m: MetaEventModel) -> int {
    ep5(m) + enc_parent(m.event.parent).len() as int
}

pub open spec fn ep7(m: MetaEventModel) -> int {
    ep6(m) + 8
}

pub open spec fn ep8(m: MetaEventModel) -> int {
    ep7(m) + enc_bytes_body(m.event.data).len() as int + 2
}

/// The first half of an encoded entry parses back field by field.
#[verifier::rlimit(100)]
#[verifier::spinoff_prover]
proof fn lemma_sp_entry_first(m: MetaEventModel, rest: Seq<char>)
    ensures
        starts_with(enc_entry(m) + rest, lit_hash()),
        sp_u64((enc_entry(m) + rest).skip(8)) == Some((m.hash, enc_u64(m.hash).len() as int)),
        starts_with((enc_entry(m) + rest).skip(ep2(m)), lit_event()),
        sp_string((enc_entry(m) + rest).skip(ep3(m))) == Some(
            (m.event.type_, enc_string(m.event.type_).len() as int),
        ),
{
    let t = enc_entry(m) + rest;
    let h = enc_u64(m.hash);
    let s = enc_string(m.event.type_);
    let p = enc_parent(m.event.parent);
    let bd = enc_bytes_body(m.event.data);
    let a = seq!['['] + bd + seq![']'];
    let r8 = seq!['}', '}'] + rest;
    let r7 = a + r8;
    let r6 = lit_data() + r7;
    let r5 = p + r6;
    let r4 = lit_parent() + r5;
    let r3 = s + r4;
    let r2 = lit_event() + r3;
    let r1 = h + r2;
    lemma_entry_shape(m, rest);
    assert(t == lit_hash() + r1);
    lemma_concat_parts(lit_hash(), r1);
    assert(starts_with(t, lit_hash()));
    assert(t.skip(8) == r1);
    lemma_concat_parts(h, r2);
    assert((lit_event() + r3)[0] == ',');
    lemma_sp_u64_complete(m.hash, r2);
    lemma_skip_skip(t, 8, h.len() as int);
    assert(t.skip(ep2(m)) == r2);
    lemma_concat_parts(lit_event(), r3);
    assert(starts_with(t.skip(ep2(m)), lit_event()));
    lemma_skip_skip(t, ep2(m), 18);
    assert(t.skip(ep3(m)) == r3);
    lemma_sp_string_complete(m.event.type_, r4);
}

/// The parent field of an encoded entry parses back.
#[verifier::rlimit(100)]
#[verifier::spinoff_prover]
proof fn lemma_sp_entry_second(m: MetaEventModel, rest: Seq<char>)
    ensures
        starts_with((enc_entry(m) + rest).skip(ep4(m)), lit_parent()),
        sp_parent((enc_entry(m) + rest).skip(ep5(m))) == Some(
            (m.event.parent, enc_parent(m.event.parent).len() as int),
        ),
        starts_with((enc_entry(m) + rest).skip(ep6(m)), lit_data()),
{
    let t = enc_entry(m) + rest;
    let h = enc_u64(m.hash);
    let s = enc_string(m.event.type_);
    let p = enc_parent(m.event.parent);
    let bd = enc_bytes_body(m.event.data);
    let a = seq!['['] + bd + seq![']'];
    let r8 = seq!['}', '}'] + rest;
    let r7 = a + r8;
    let r6 = lit_data() + r7;
    let r5 = p + r6;
    let r4 = lit_parent() + r5;
    let r3 = s + r4;
    let r2 = lit_event() + r3;
    let r1 = h + r2;
    lemma_entry_shape(m, rest);
    assert(t == lit_hash() + r1);
    lemma_concat_parts(lit_hash(), r1);
    assert(t.skip(8) == r1);
    lemma_concat_parts(h, r2);
    lemma_skip_skip(t, 8, h.len() as int);
    assert(t.skip(ep2(m)) == r2);
    lemma_concat_parts(lit_event(), r3);
    lemma_skip_skip(t, ep2(m), 18);
    assert(t.skip(ep3(m)) == r3);
    lemma_concat_parts(s, r4);
    lemma_skip_skip(t, ep3(m), s.len() as int);
    assert(t.skip(ep4(m)) == r4);
    lemma_concat_parts(lit_parent(), r5);
    assert(starts_with(t.skip(ep4(m)), lit_parent()));
    lemma_skip_skip(t, ep4(m), 10);
    assert(t.skip(ep5(m)) == r5);
    assert((lit_data() + r7)[0] == ',');
    lemma_sp_parent_complete(m.event.parent, r6);
    lemma_concat_parts(p, r6);
    lemma_skip_skip(t, ep5(m), p.len() as int);
    assert(t.skip(ep6(m)) == r6);
    lemma_concat_parts(lit_data(), r7);
    assert(starts_with(t.skip(ep6(m)), lit_data()));
}

/// The payload bytes and the closing braces of an encoded entry parse back.
#[verifier::rlimit(100)]
#[verifier::spinoff_prover]
proof fn lemma_sp_entry_third(m: MetaEventModel, rest: Seq<char>)
    ensures
        sp_bytes((enc_entry(m) + rest).skip(ep7(m))) == Some(
            (m.event.data, enc_bytes_body(m.event.data).len() as int + 2),
        ),
        starts_with((enc_entry(m) + rest).skip(ep8(m)), seq!['}', '}']),
        enc_entry(m).len() == ep8(m) + 2,
{
    let t = enc_entry(m) + rest;
    let h = enc_u64(m.hash);
    let s = enc_string(m.event.type_);
    let p = enc_parent(m.event.parent);
    let bd = enc_bytes_body(m.event.data);
    let a = seq!['['] + bd + seq![']'];
    let r8 = seq!['}', '}'] + rest;
    let r7 = a + r8;
    let r6 = lit_data() + r7;
    let r5 = p + r6;
    let r4 = lit_parent() + r5;
    let r3 = s + r4;
    let r2 = lit_event() + r3;
    let r1 = h + r2;
    lemma_entry_shape(m, rest);
    assert(t == lit_hash() + r1);
    lemma_concat_parts(lit_hash(), r1);
    assert(t.skip(8) == r1);
    lemma_concat_parts(h, r2);
    lemma_skip_skip(t, 8, h.len() as int);
    assert(t.skip(ep2(m)) == r2);
    lemma_concat_parts(lit_event(), r3);
    lemma_skip_skip(t, ep2(m), 18);
    assert(t.skip(ep3(m)) == r3);
    lemma_concat_parts(s, r4);
    lemma_skip_skip(t, ep3(m), s.len() as int);
    assert(t.skip(ep4(m)) == r4);
    lemma_concat_parts(lit_parent(), r5);
    lemma_skip_skip(t, ep4(m), 10);
    assert(t.skip(ep5(m)) == r5);
    lemma_concat_parts(p, r6);
    lemma_skip_skip(t, ep5(m), p.len() as int);
    assert(t.skip(ep6(m)) == r6);
    lemma_concat_parts(lit_data(), r7);
    lemma_skip_skip(t, ep6(m), 8);
    assert(t.skip(ep7(m)) == r7);
    lemma_sp_bytes_complete(m.event.data, r8);
    assert(seq!['['] + bd + seq![']'] + r8 =~= a + r8);
    assert(sp_bytes(t.skip(ep7(m))) == Some((m.event.data, bd.len() as int + 2)));
    assert(a.len() == bd.len() + 2);
    lemma_concat_parts(a, r8);
    lemma_skip_skip(t, ep7(m), a.len() as int);
    assert(t.skip(ep8(m)) == r8);
    lemma_concat_parts(seq!['}', '}'], rest);
    assert(starts_with(t.skip(ep8(m)), seq!['}', '}']));
    assert(t.len() == enc_entry(m).len() + rest.len());
    assert(r8.len() == 2 + rest.len());
    assert(enc_entry(m).len() == ep8(m) + 2);
}

/// Parsing an encoded entry recovers it exactly.
#[verifier::rlimit(100)]
#[verifier::spinoff_prover]
proof fn lemma_sp_entry_complete(m: MetaEventModel, rest: Seq<char>)
    ensures
        sp_entry(enc_entry(m) + rest) == Some((m, enc_entry(m).len() as int)),
{
    let t = enc_entry(m) + rest;
    assert(sp_entry(t) == Some((m, enc_entry(m).len() as int))) by {
        reveal(sp_entry);
        lemma_sp_entry_first(m, rest);
        lemma_sp_entry_second(m, rest);
        lemma_sp_entry_third(m, rest);
    }
}

/// The comma-led entry tail is a comma followed by the entry list body.
proof fn lemma_entries_tail_body(s: Seq<MetaEventModel>)
    requires
        s.len() >= 1,
    ensures
        enc_entries_tail(s) =~= seq![','] + enc_entries_body(s),
{
}

/// Parsing a non-empty encoded entry list body followed by `]` recovers the
/// entries and consumes body and bracket.
#[verifier::rlimit(100)]
#[verifier::spinoff_prover]
proof fn lemma_sp_entries_rest_complete(s: Seq<MetaEventModel>, rest: Seq<char>)
    requires
        s.len() >= 1,
    ensures
        sp_entries_rest(enc_entries_body(s) + seq![']'] + rest) == Some(
            (s, enc_entries_body(s).len() as int + 1),
        ),
    decreases s.len(),
{
    let t = enc_entries_body(s) + seq![']'] + rest;
    let e = enc_entry(s[0]);
    if s.len() == 1 {
        assert(enc_entries_body(s) =~= e);
        assert(t =~= e + (seq![']'] + rest));
        lemma_sp_entry_complete(s[0], seq![']'] + rest);
        assert(t[e.len() as int] == ']');
        assert(seq![s[0]] =~= s);
    } else {
        lemma_entries_tail_body(s.drop_first());
        assert(enc_entries_body(s) =~= e + seq![','] + enc_entries_body(s.drop_first()));
        let after = seq![','] + enc_entries_body(s.drop_first()) + seq![']'] + rest;
        assert(t =~= e + after);
        lemma_sp_entry_complete(s[0], after);
        assert(t[e.len() as int] == ',');
        assert(t.skip(e.len() as int + 1) =~= enc_entries_body(s.drop_first()) + seq![']'] + rest);
        lemma_sp_entries_rest_complete(s.drop_first(), rest);
        assert(seq![s[0]] + s.drop_first() =~= s);
    }
}

/// Decoding the canonical wire text of any chain contents reproduces them
/// exactly: same entries, same hashes, same parent links, same order.
pub proof fn lemma_chain_round_trip(s: Seq<MetaEventModel>)
    ensures
        dec_chain(enc_chain(s)) == Some(s),
{
    let t = enc_chain(s);
    assert(t =~= lit_open() + (enc_entries_body(s) + lit_close()));
    assert(t.take(lit_open().len() as int) =~= lit_open());
    assert(starts_with(t, lit_open()));
    let p = lit_open().len() as int;
    if s.len() == 0 {
        assert(enc_entries_body(s) =~= Seq::<char>::empty());
        assert(t[p] == ']');
        assert(t[p + 1] == '}');
        assert(sp_chain(t) == Some((Seq::<MetaEventModel>::empty(), p + 2)));
        assert(t.len() == p + 2);
        assert(s =~= Seq::<MetaEventModel>::empty());
    } else {
        assert(t[p] == enc_entries_body(s)[0]);
        assert(enc_entries_body(s)[0] == enc_entry(s[0])[0]);
        assert(enc_entry(s[0])[0] == '{');
        assert(t[p] != ']');
        assert(t.skip(p) =~= enc_entries_body(s) + seq![']'] + seq!['}']);
        lemma_sp_entries_rest_complete(s, seq!['}']);
        let k = enc_entries_body(s).len() as int + 1;
        let q = p + k;
        assert(t[q] == '}');
        assert(sp_chain(t) == Some((s, q + 1)));
        assert(t.len() == q + 1);
    }
}

} // verus!

verus! {

/// Why a wire text or a boundary declaration was rejected.
#[derive(Debug, Clone, Copy, PartialEq, Eq, Structural)]
pub enum WireError {
    /// The text is not a canonical chain document.
    Malformed,
    /// The boundary declared a type other than the primitive string.
    TypeMismatch,
}

/// The interface types a component boundary can declare for a marshalled
/// value, as far as this adapter tells them apart.
#[derive(Debug, Clone, Copy, PartialEq, Eq, Structural)]
pub enum BoundaryType {
    PrimString,
    PrimBool,
    PrimU32,
    PrimU64,
    PrimChar,
    PrimList,
    PrimRecord,
    Other,
}

/// A chain presents itself to the boundary as the primitive string type:
/// exactly that declaration is accepted, any other is a checked failure.
pub fn chain_typecheck(ty: &BoundaryType) -> (r: Result<(), WireError>)
    ensures
        r is Ok <==> ty is PrimString,
        r matches Err(e) ==> e == WireError::TypeMismatch,
{
    match ty {
        BoundaryType::PrimString => Ok(()),
        _ => Err(WireError::TypeMismatch),
    }
}

/// Decides whether a character is a decimal digit.
fn is_digit_ex(c: char) -> (r: bool)
    ensures
        r == spec_is_digit(c),
{
    let x = c as u32;
    48 <= x && x <= 57
}

/// Decides whether the input at `i` starts with the literal.
fn lit_at(s: &Vec<char>, i: usize, lit: &str) -> (r: bool)
    requires
        i <= s@.len(),
    ensures
        r == starts_with(s@.skip(i as int), lit@),
{
    let cs = string_to_chars(lit);
    let n = cs.len();
    let slen = s.len();
    if slen - i < n {
        return false;
    }
    let mut j: usize = 0;
    while j < n
        invariant
            j <= n,
            n == cs@.len(),
            cs@ == lit@,
            slen == s@.len(),
            i + n <= slen,
            forall|k: int| 0 <= k < j ==> s@[i + k] == cs@[k],
        decreases n - j,
    {
        if s[i + j] != cs[j] {
            proof {
                let t = s@.skip(i as int);
                assert(t[j as int] == s@[i + j]);
                if starts_with(t, lit@) {
                    assert(t.take(lit@.len() as int)[j as int] == t[j as int]);
                }
            }
            return false;
        }
        j = j + 1;
    }
    proof {
        let t = s@.skip(i as int);
        assert(t.take(lit@.len() as int) =~= lit@);
    }
    true
}

/// Parses a decimal 64-bit number at `i`, as `sp_u64` describes.
fn p_u64_at(s: &Vec<char>, i: usize) -> (r: Option<(u64, usize)>)
    requires
        i <= s@.len(),
    ensures
        match r {
            Some(v) => i <= v.1 <= s@.len() && sp_u64(s@.skip(i as int)) == Some(
                (v.0, v.1 - i),
            ),
            None => sp_u64(s@.skip(i as int)) is None,
        },
{
    let ghost t0 = s@.skip(i as int);
    if i == s.len() || !is_digit_ex(s[i]) {
        proof {
            if i < s@.len() {
                assert(t0[0] == s@[i as int]);
            }
        }
        return None;
    }
    proof {
        assert(t0[0] == s@[i as int]);
    }
    let mut cur: usize = i;
    let mut acc: u64 = 0;
    loop
        invariant
            i <= cur <= s@.len(),
            t0 == s@.skip(i as int),
            t0.len() > 0 && spec_is_digit(t0[0]),
            match sp_digits(s@.skip(cur as int), acc) {
                Some(v) => sp_digits(t0, 0) == Some((v.0, (cur - i) + v.1)),
                None => sp_digits(t0, 0) is None,
            },
        decreases s@.len() - cur,
    {
        if cur == s.len() || !is_digit_ex(s[cur]) {
            proof {
                if cur < s@.len() {
                    assert(s@.skip(cur as int)[0] == s@[cur as int]);
                }
                assert(sp_digits(s@.skip(cur as int), acc) == Some((acc, 0int)));
            }
            return Some((acc, cur));
        }
        let c = s[cur];
        let d = (c as u32 - 48) as u64;
        proof {
            assert(s@.skip(cur as int)[0] == s@[cur as int]);
        }
        let step = match acc.checked_mul(10) {
            Some(m10) => m10.checked_add(d),
            None => None,
        };
        match step {
            None => {
                proof {
                    assert(sp_digits(s@.skip(cur as int), acc) is None);
                }
                return None;
            },
            Some(acc2) => {
                proof {
                    assert(s@.skip(cur as int).drop_first() =~= s@.skip(cur + 1));
                    assert(sp_digits(s@.skip(cur as int), acc) == match sp_digits(
                        s@.skip(cur + 1),
                        acc2,
                    ) {
                        None => None::<(u64, int)>,
                        Some(v) => Some((v.0, v.1 + 1)),
                    });
                }
                acc = acc2;
                cur = cur + 1;
            },
        }
    }
}

/// Decides whether a character is a lowercase hexadecimal digit.
fn is_hex_ex(c: char) -> (r: bool)
    ensures
        r == spec_is_hex(c),
{
    let x = c as u32;
    (48 <= x && x <= 57) || (97 <= x && x <= 102)
}

/// The value of a lowercase hexadecimal digit.
fn hex_val_ex(c: char) -> (r: u32)
    requires
        spec_is_hex(c),
    ensures
        r == spec_hex_val(c),
{
    let x = c as u32;
    if x <= 57 {
        x - 48
    } else {
        x - 87
    }
}

/// Parses one escape at `i` (the character after the backslash), as
/// `sp_escape` describes.
fn p_escape_at(s: &Vec<char>, i: usize) -> (r: Option<(char, usize)>)
    requires
        i <= s@.len(),
    ensures
        match r {
            Some(v) => 1 <= v.1 && i + v.1 <= s@.len() && sp_escape(s@.skip(i as int)) == Some(
                (v.0, v.1 as int),
            ),
            None => sp_escape(s@.skip(i as int)) is None,
        },
{
    let ghost te = s@.skip(i as int);
    if i == s.len() {
        return None;
    }
    let e = s[i];
    proof {
        assert(te[0] == s@[i as int]);
    }
    if e == '"' {
        Some(('"', 1))
    } else if e == '\\' {
        Some(('\\', 1))
    } else if e == '/' {
        Some(('/', 1))
    } else if e == 'b' {
        Some(('\u{8}', 1))
    } else if e == 't' {
        Some(('\u{9}', 1))
    } else if e == 'n' {
        Some(('\u{a}', 1))
    } else if e == 'f' {
        Some(('\u{c}', 1))
    } else if e == 'r' {
        Some(('\u{d}', 1))
    } else if e == 'u' {
        let slen = s.len();
        if slen - i < 5 {
            proof {
                assert(te.len() < 5);
            }
            return None;
        }
        proof {
            assert(te.len() >= 5);
            assert(te[1] == s@[i + 1]);
            assert(te[2] == s@[i + 2]);
            assert(te[3] == s@[i + 3]);
            assert(te[4] == s@[i + 4]);
        }
        if s[i + 1] != '0' || s[i + 2] != '0' {
            return None;
        }
        let h1 = s[i + 3];
        let h2 = s[i + 4];
        let hex1 = is_hex_ex(h1);
        let hex2 = is_hex_ex(h2);
        if !hex1 || !hex2 {
            return None;
        }
        let v1: u32 = hex_val_ex(h1);
        let v2: u32 = hex_val_ex(h2);
        let code: u32 = v1 * 16 + v2;
        proof {
            assert(v1 == spec_hex_val(te[3]));
            assert(v2 == spec_hex_val(te[4]));
            assert(code == spec_hex_val(te[3]) * 16 + spec_hex_val(te[4]));
        }
        Some(((code as u8) as char, 5))
    } else {
        None
    }
}

/// Parses a quoted string at `i`, as `sp_string` describes.
#[verifier::rlimit(100)]
fn p_string_at(s: &Vec<char>, i: usize) -> (r: Option<(String, usize)>)
    requires
        i <= s@.len(),
    ensures
        match r {
            Some(v) => i <= v.1 <= s@.len() && sp_string(s@.skip(i as int)) == Some(
                (v.0@, v.1 - i),
            ),
            None => sp_string(s@.skip(i as int)) is None,
        },
{
    let ghost t0 = s@.skip(i as int);
    if i == s.len() || s[i] != '"' {
        proof {
            if i < s@.len() {
                assert(t0[0] == s@[i as int]);
            }
        }
        return None;
    }
    proof {
        assert(t0[0] == s@[i as int]);
        assert(t0.drop_first() =~= s@.skip(i + 1));
    }
    let start = i + 1;
    let mut cur: usize = start;
    let mut out: Vec<char> = Vec::new();
    loop
        invariant
            start == i + 1,
            i < s@.len(),
            start <= cur <= s@.len(),
            s@[i as int] == '"',
            t0 == s@.skip(i as int),
            t0.drop_first() == s@.skip(start as int),
            match sp_str_body(s@.skip(cur as int)) {
                Some(v) => sp_str_body(s@.skip(start as int)) == Some(
                    (out@ + v.0, (cur - start) + v.1),
                ),
                None => sp_str_body(s@.skip(start as int)) is None,
            },
        decreases s@.len() - cur,
    {
        if cur == s.len() {
            proof {
                assert(s@.skip(cur as int).len() == 0);
            }
            return None;
        }
        let c = s[cur];
        proof {
            assert(s@.skip(cur as int)[0] == s@[cur as int]);
        }
        if c == '"' {
            let j = cur + 1;
            let st = chars_to_string(&out);
            proof {
                assert(sp_str_body(s@.skip(cur as int)) == Some((Seq::<char>::empty(), 1int)));
                assert(out@ + Seq::<char>::empty() =~= out@);
            }
            return Some((st, j));
        } else if c == '\\' {
            proof {
                assert(s@.skip(cur as int).drop_first() =~= s@.skip(cur + 1));
            }
            match p_escape_at(s, cur + 1) {
                None => {
                    return None;
                },
                Some((dc, k)) => {
                    let ghost prev = out@;
                    out.push(dc);
                    proof {
                        let t = s@.skip(cur as int);
                        assert(t.skip(k + 1) =~= s@.skip(cur + k + 1));
                        assert(out@ =~= prev.push(dc));
                        match sp_str_body(s@.skip(cur + k + 1)) {
                            Some(v) => {
                                assert(sp_str_body(t) == Some((seq![dc] + v.0, k + 1 + v.1)));
                                assert(prev + (seq![dc] + v.0) =~= out@ + v.0);
                            },
                            None => {
                                assert(sp_str_body(t) is None);
                            },
                        }
                    }
                    cur = cur + 1 + k;
                },
            }
        } else if (c as u32) >= 0x20 {
            let ghost prev = out@;
            out.push(c);
            proof {
                let t = s@.skip(cur as int);
                assert(t.drop_first() =~= s@.skip(cur + 1));
                assert(out@ =~= prev.push(c));
                match sp_str_body(s@.skip(cur + 1)) {
                    Some(v) => {
                        assert(sp_str_body(t) == Some((seq![c] + v.0, v.1 + 1)));
                        assert(prev + (seq![c] + v.0) =~= out@ + v.0);
                    },
                    None => {
                        assert(sp_str_body(t) is None);
                    },
                }
            }
            cur = cur + 1;
        } else {
            proof {
                assert(sp_str_body(s@.skip(cur as int)) is None);
            }
            return None;
        }
    }
}

} // verus!

verus! {

/// Parses a parent reference at `i`, as `sp_parent` describes.
fn p_parent_at(s: &Vec<char>, i: usize) -> (r: Option<(Option<u64>, usize)>)
    requires
        i <= s@.len(),
    ensures
        match r {
            Some(v) => i <= v.1 <= s@.len() && sp_parent(s@.skip(i as int)) == Some(
                (v.0, v.1 - i),
            ),
            None => sp_parent(s@.skip(i as int)) is None,
        },
{
    let slen = s.len();
    if lit_at(s, i, "null") {
        proof {
            reveal_strlit("null");
            assert(("null")@ =~= lit_null());
            assert(lit_null().len() <= s@.skip(i as int).len());
        }
        return Some((None, i + 4));
    }
    proof {
        reveal_strlit("null");
        assert(("null")@ =~= lit_null());
    }
    match p_u64_at(s, i) {
        None => None,
        Some((v, j)) => Some((Some(v), j)),
    }
}

/// Parses a bracketed byte list at `i`, as `sp_bytes` describes.
#[verifier::rlimit(100)]
fn p_bytes_at(s: &Vec<char>, i: usize) -> (r: Option<(Vec<u8>, usize)>)
    requires
        i <= s@.len(),
    ensures
        match r {
            Some(v) => i <= v.1 <= s@.len() && sp_bytes(s@.skip(i as int)) == Some(
                (v.0@, v.1 - i),
            ),
            None => sp_bytes(s@.skip(i as int)) is None,
        },
{
    let ghost t0 = s@.skip(i as int);
    let slen = s.len();
    if slen - i < 2 || s[i] != '[' {
        proof {
            if i < s@.len() {
                assert(t0[0] == s@[i as int]);
            }
        }
        return None;
    }
    proof {
        assert(t0[0] == s@[i as int]);
        assert(t0[1] == s@[i + 1]);
        assert(t0.len() >= 2);
    }
    if s[i + 1] == ']' {
        let out: Vec<u8> = Vec::new();
        proof {
            assert(out@ =~= Seq::<u8>::empty());
        }
        return Some((out, i + 2));
    }
    let start = i + 1;
    proof {
        assert(t0.drop_first() =~= s@.skip(start as int));
    }
    let mut cur: usize = start;
    let mut out: Vec<u8> = Vec::new();
    loop
        invariant
            i < start <= cur <= s@.len(),
            start == i + 1,
            slen == s@.len(),
            s@[i as int] == '[',
            s@[i + 1] != ']',
            t0 == s@.skip(i as int),
            t0.drop_first() == s@.skip(start as int),
            t0.len() >= 2,
            match sp_bytes_rest(s@.skip(cur as int)) {
                Some(v) => sp_bytes_rest(s@.skip(start as int)) == Some(
                    (out@ + v.0, (cur - start) + v.1),
                ),
                None => sp_bytes_rest(s@.skip(start as int)) is None,
            },
        decreases s@.len() - cur,
    {
        let ghost tc = s@.skip(cur as int);
        match p_u64_at(s, cur) {
            None => {
                proof {
                    assert(sp_byte(tc) is None);
                    assert(sp_bytes_rest(tc) is None);
                }
                return None;
            },
            Some((v, j)) => {
                if v > 255 {
                    proof {
                        assert(sp_byte(tc) is None);
                        assert(sp_bytes_rest(tc) is None);
                    }
                    return None;
                }
                let b = v as u8;
                let k = j - cur;
                proof {
                    assert(sp_byte(tc) == Some((b, k as int)));
                }
                if j >= slen || k == 0 {
                    proof {
                        assert(sp_bytes_rest(tc) is None);
                    }
                    return None;
                }
                proof {
                    assert(tc[k as int] == s@[j as int]);
                }
                if s[j] == ']' {
                    let ghost prev = out@;
                    out.push(b);
                    proof {
                        assert(sp_bytes_rest(tc) == Some((seq![b], k + 1)));
                        assert(prev + seq![b] =~= out@);
                    }
                    return Some((out, j + 1));
                } else if s[j] == ',' {
                    let ghost prev = out@;
                    out.push(b);
                    proof {
                        assert(tc.skip(k + 1) =~= s@.skip(j + 1));
                        match sp_bytes_rest(s@.skip(j + 1)) {
                            Some(v2) => {
                                assert(sp_bytes_rest(tc) == Some((seq![b] + v2.0, k + 1 + v2.1)));
                                assert(prev + (seq![b] + v2.0) =~= out@ + v2.0);
                            },
                            None => {
                                assert(sp_bytes_rest(tc) is None);
                            },
                        }
                    }
                    cur = j + 1;
                } else {
                    proof {
                        assert(sp_bytes_rest(tc) is None);
                    }
                    return None;
                }
            },
        }
    }
}

} // verus!

verus! {

/// Parses one entry at `i`, as `sp_entry` describes.
#[verifier::rlimit(100)]
#[verifier::spinoff_prover]
fn p_entry_at(s: &Vec<char>, i: usize) -> (r: Option<(crate::chain::MetaEvent, usize)>)
    requires
        i <= s@.len(),
    ensures
        match r {
            Some(v) => i + 1 <= v.1 <= s@.len() && sp_entry(s@.skip(i as int)) == Some(
                (v.0@, v.1 - i),
            ),
            None => sp_entry(s@.skip(i as int)) is None,
        },
{
    let ghost t0 = s@.skip(i as int);
    let slen = s.len();
    if !lit_at(s, i, "{\"hash\":") {
        proof {
            reveal_strlit("{\"hash\":");
            assert(("{\"hash\":")@ =~= lit_hash());
            assert(sp_entry(t0) is None) by {
                reveal(sp_entry);
            }
        }
        return None;
    }
    proof {
        reveal_strlit("{\"hash\":");
        assert(("{\"hash\":")@ =~= lit_hash());
        assert(starts_with(t0, lit_hash()));
        assert(i + 8 <= s@.len());
        assert(t0.skip(8) =~= s@.skip(i + 8));
    }
    let q1 = i + 8;
    let hash = match p_u64_at(s, q1) {
        None => {
            proof {
                assert(sp_entry(t0) is None) by {
                    reveal(sp_entry);
                }
            }
            return None;
        },
        Some(v) => v,
    };
    let q2 = hash.1;
    proof {
        assert(sp_u64(t0.skip(8)) == Some((hash.0, q2 - i - 8)));
        assert(t0.skip(q2 - i) =~= s@.skip(q2 as int));
    }
    if !lit_at(s, q2, ",\"event\":{\"type_\":") {
        proof {
            reveal_strlit(",\"event\":{\"type_\":");
            assert((",\"event\":{\"type_\":")@ =~= lit_event());
            assert(sp_entry(t0) is None) by {
                reveal(sp_entry);
            }
        }
        return None;
    }
    proof {
        reveal_strlit(",\"event\":{\"type_\":");
        assert((",\"event\":{\"type_\":")@ =~= lit_event());
        assert(starts_with(t0.skip(q2 - i), lit_event()));
        assert(q2 + 18 <= s@.len());
        assert(t0.skip(q2 - i + 18) =~= s@.skip(q2 + 18));
    }
    let q3 = q2 + 18;
    let ty = match p_string_at(s, q3) {
        None => {
            proof {
                assert(sp_entry(t0) is None) by {
                    reveal(sp_entry);
                }
            }
            return None;
        },
        Some(v) => v,
    };
    let q4 = ty.1;
    proof {
        assert(sp_string(t0.skip(q3 - i)) == Some((ty.0@, q4 - q3)));
        assert(t0.skip(q4 - i) =~= s@.skip(q4 as int));
    }
    if !lit_at(s, q4, ",\"parent\":") {
        proof {
            reveal_strlit(",\"parent\":");
            assert((",\"parent\":")@ =~= lit_parent());
            assert(sp_entry(t0) is None) by {
                reveal(sp_entry);
            }
        }
        return None;
    }
    proof {
        reveal_strlit(",\"parent\":");
        assert((",\"parent\":")@ =~= lit_parent());
        assert(starts_with(t0.skip(q4 - i), lit_parent()));
        assert(q4 + 10 <= s@.len());
        assert(t0.skip(q4 - i + 10) =~= s@.skip(q4 + 10));
    }
    let q5 = q4 + 10;
    let par = match p_parent_at(s, q5) {
        None => {
            proof {
                assert(sp_entry(t0) is None) by {
                    reveal(sp_entry);
                }
            }
            return None;
        },
        Some(v) => v,
    };
    let q6 = par.1;
    proof {
        assert(sp_parent(t0.skip(q5 - i)) == Some((par.0, q6 - q5)));
        assert(t0.skip(q6 - i) =~= s@.skip(q6 as int));
    }
    if !lit_at(s, q6, ",\"data\":") {
        proof {
            reveal_strlit(",\"data\":");
            assert((",\"data\":")@ =~= lit_data());
            assert(sp_entry(t0) is None) by {
                reveal(sp_entry);
            }
        }
        return None;
    }
    proof {
        reveal_strlit(",\"data\":");
        assert((",\"data\":")@ =~= lit_data());
        assert(starts_with(t0.skip(q6 - i), lit_data()));
        assert(q6 + 8 <= s@.len());
        assert(t0.skip(q6 - i + 8) =~= s@.skip(q6 + 8));
    }
    let q7 = q6 + 8;
    let data = match p_bytes_at(s, q7) {
        None => {
            proof {
                assert(sp_entry(t0) is None) by {
                    reveal(sp_entry);
                }
            }
            return None;
        },
        Some(v) => v,
    };
    let q8 = data.1;
    let ghost data_view = data.0@;
    proof {
        assert(sp_bytes(t0.skip(q7 - i)) == Some((data_view, q8 - q7)));
        assert(t0.skip(q8 - i) =~= s@.skip(q8 as int));
    }
    if !lit_at(s, q8, "}}") {
        proof {
            reveal_strlit("}}");
            assert(("}}")@ =~= seq!['}', '}']);
            assert(sp_entry(t0) is None) by {
                reveal(sp_entry);
            }
        }
        return None;
    }
    proof {
        reveal_strlit("}}");
        assert(("}}")@ =~= seq!['}', '}']);
        assert(starts_with(t0.skip(q8 - i), seq!['}', '}']));
        assert(q8 + 2 <= s@.len());
    }
    let event = crate::chain::Event::assemble(ty.0, par.0, data.0);
    let m = crate::chain::MetaEvent::assemble(hash.0, event);
    proof {
        assert(sp_entry(t0) == Some((m@, (q8 + 2) - i))) by {
            reveal(sp_entry);
        }
    }
    Some((m, q8 + 2))
}

/// Decodes a canonical chain wire text, as `dec_chain` describes: the whole
/// text must be one canonical chain document, else the typed error comes
/// back and no partial chain is built.
#[verifier::rlimit(100)]
pub fn decode_chain(text: &str) -> (r: Result<Chain, WireError>)
    ensures
        match r {
            Ok(c) => dec_chain(text@) == Some(c@),
            Err(e) => dec_chain(text@) is None && e == WireError::Malformed,
        },
{
    let s = string_to_chars(text);
    let slen = s.len();
    proof {
        assert(s@.skip(0) =~= s@);
    }
    if !lit_at(&s, 0, "{\"events\":[") {
        proof {
            reveal_strlit("{\"events\":[");
            assert(("{\"events\":[")@ =~= lit_open());
        }
        return Err(WireError::Malformed);
    }
    proof {
        reveal_strlit("{\"events\":[");
        assert(("{\"events\":[")@ =~= lit_open());
        assert(starts_with(s@, lit_open()));
        assert(slen >= 11);
    }
    if slen >= 13 && s[11] == ']' && s[12] == '}' {
        if slen == 13 {
            let c = Chain::new();
            proof {
                assert(sp_chain(text@) == Some((Seq::<MetaEventModel>::empty(), 13int)));
            }
            return Ok(c);
        } else {
            proof {
                assert(sp_chain(text@) == Some((Seq::<MetaEventModel>::empty(), 13int)));
            }
            return Err(WireError::Malformed);
        }
    }
    let ghost empty_doc = slen >= 13 && s@[11] == ']' && s@[12] == '}';
    proof {
        assert(!empty_doc);
        if 13 <= s@.len() && s@[11] == ']' && s@[12] == '}' {
            assert(false);
        }
    }
    let mut cur: usize = 11;
    let mut entries: Vec<crate::chain::MetaEvent> = Vec::new();
    proof {
        assert(s@.skip(11).len() == s@.len() - 11);
        assert(entries@.map_values(|m: crate::chain::MetaEvent| m@) =~= Seq::<
            MetaEventModel,
        >::empty());
    }
    loop
        invariant
            11 <= cur <= s@.len(),
            slen == s@.len(),
            s@ == text@,
            slen >= 11,
            starts_with(s@, lit_open()),
            !(13 <= s@.len() && s@[11] == ']' && s@[12] == '}'),
            match sp_entries_rest(s@.skip(cur as int)) {
                Some(v) => sp_entries_rest(s@.skip(11)) == Some(
                    (entries@.map_values(|m: crate::chain::MetaEvent| m@) + v.0, (cur - 11) + v.1),
                ),
                None => sp_entries_rest(s@.skip(11)) is None,
            },
        decreases s@.len() - cur,
    {
        let ghost tc = s@.skip(cur as int);
        match p_entry_at(&s, cur) {
            None => {
                proof {
                    assert(sp_entries_rest(tc) is None);
                }
                return Err(WireError::Malformed);
            },
            Some((m, j)) => {
                let k = j - cur;
                proof {
                    assert(sp_entry(tc) == Some((m@, k as int)));
                }
                if j >= slen {
                    proof {
                        assert(!(k < tc.len()));
                        assert(sp_entries_rest(tc) is None);
                    }
                    return Err(WireError::Malformed);
                }
                proof {
                    assert(tc[k as int] == s@[j as int]);
                }
                if s[j] == ']' {
                    let ghost prev = entries@.map_values(|m2: crate::chain::MetaEvent| m2@);
                    entries.push(m);
                    proof {
                        assert(sp_entries_rest(tc) == Some((seq![m@], k + 1)));
                        assert(entries@.map_values(|m2: crate::chain::MetaEvent| m2@) =~= prev.push(
                            m@,
                        ));
                        assert(prev + seq![m@] =~= prev.push(m@));
                    }
                    if j + 1 < slen && s[j + 1] == '}' {
                        if j + 2 == slen {
                            let c = Chain::from_entries(entries);
                            proof {
                                let es = c@;
                                assert(sp_entries_rest(s@.skip(11)) == Some(
                                    (es, (j + 1 - 11) as int),
                                ));
                                assert(s@[11 + (j + 1 - 11) as int] == '}');
                                assert(sp_chain(text@) == Some((es, j + 2 as int)));
                            }
                            return Ok(c);
                        } else {
                            proof {
                                let es = entries@.map_values(|m2: crate::chain::MetaEvent| m2@);
                                assert(sp_entries_rest(s@.skip(11)) == Some(
                                    (es, (j + 1 - 11) as int),
                                ));
                                assert(s@[11 + (j + 1 - 11) as int] == '}');
                                assert(sp_chain(text@) == Some((es, j + 2 as int)));
                            }
                            return Err(WireError::Malformed);
                        }
                    } else {
                        proof {
                            let es = entries@.map_values(|m2: crate::chain::MetaEvent| m2@);
                            assert(sp_entries_rest(s@.skip(11)) == Some((es, (j + 1 - 11) as int)));
                            let q = 11 + (j + 1 - 11) as int;
                            if q < s@.len() {
                                assert(s@[q] != '}');
                            }
                            assert(sp_chain(text@) is None);
                        }
                        return Err(WireError::Malformed);
                    }
                } else if s[j] == ',' {
                    let ghost prev = entries@.map_values(|m2: crate::chain::MetaEvent| m2@);
                    entries.push(m);
                    proof {
                        assert(tc.skip(k + 1) =~= s@.skip(j + 1));
                        assert(entries@.map_values(|m2: crate::chain::MetaEvent| m2@) =~= prev.push(
                            m@,
                        ));
                        match sp_entries_rest(s@.skip(j + 1)) {
                            Some(v2) => {
                                assert(sp_entries_rest(tc) == Some((seq![m@] + v2.0, k + 1 + v2.1)));
                                assert(prev + (seq![m@] + v2.0) =~= prev.push(m@) + v2.0);
                            },
                            None => {
                                assert(sp_entries_rest(tc) is None);
                            },
                        }
                    }
                    cur = j + 1;
                } else {
                    proof {
                        assert(sp_entries_rest(tc) is None);
                    }
                    return Err(WireError::Malformed);
                }
            },
        }
    }
}

} // verus!
