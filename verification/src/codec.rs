//! Textual wire form of `MessagePack` and its decoder.
//!
//! Each message is one JSON-shaped object.  The encoder emits a single
//! canonical spelling per message; the decoder accepts that spelling and
//! rejects everything else, so that an encode/decode round trip is lossless.
//! Inside quoted strings only the quote and the backslash are escaped
//! (`\"`, `\\`); the common short escapes `\n`, `\t` and `\r` are accepted
//! when reading.  All other characters, non-ASCII included, pass verbatim.

use vstd::prelude::*;
use vstd::string::*;

use crate::error::{CoreError, ErrorModel};
use crate::message::{addr_models, merge_adapter_sets, merged, unique_names, AddrModel,
    IpAddresses, MessageModel, MessagePack};

verus! {

/// How one character is written inside a quoted string.
pub open spec fn escape_char(c: char) -> Seq<char> {
    if c == '"' {
        seq!['\\', '"']
    } else if c == '\\' {
        seq!['\\', '\\']
    } else {
        seq![c]
    }
}

/// How a whole string is written inside quotes.
pub open spec fn escape(s: Seq<char>) -> Seq<char>
    decreases s.len(),
{
    if s.len() == 0 {
        Seq::<char>::empty()
    } else {
        escape_char(s[0]) + escape(s.skip(1))
    }
}

proof fn lemma_escape_snoc(s: Seq<char>, c: char)
    ensures
        escape(s.push(c)) == escape(s) + escape_char(c),
    decreases s.len(),
{
    if s.len() == 0 {
        let t = s.push(c);
        assert(t.skip(1) =~= Seq::<char>::empty());
        assert(escape(t.skip(1)) == Seq::<char>::empty());
        assert(t[0] == c);
        assert(escape(t) == escape_char(c) + escape(t.skip(1)));
        assert(escape(s) == Seq::<char>::empty());
        assert(escape(t) =~= escape(s) + escape_char(c));
    } else {
        let t = s.push(c);
        assert(t.len() == s.len() + 1);
        assert(t[0] == s[0]);
        assert(t.skip(1) =~= s.skip(1).push(c));
        lemma_escape_snoc(s.skip(1), c);
        assert(escape(t) == escape_char(t[0]) + escape(t.skip(1)));
        assert(escape(t.skip(1)) == escape(s.skip(1)) + escape_char(c));
        assert(escape(s) == escape_char(s[0]) + escape(s.skip(1)));
        assert(escape(t) =~= escape(s) + escape_char(c));
    }
}

/// Sixteen raised to `k`.
pub open spec fn p16(k: nat) -> int
    decreases k,
{
    if k == 0 {
        1
    } else {
        16 * p16((k - 1) as nat)
    }
}

proof fn lemma_p16_pos(k: nat)
    ensures
        p16(k) >= 1,
    decreases k,
{
    if k > 0 {
        lemma_p16_pos((k - 1) as nat);
    }
}

proof fn lemma_p16_values()
    ensures
        p16(4) == 0x10000,
        p16(8) == 0x100000000,
        p16(12) == 0x1000000000000,
        p16(16) == 0x10000000000000000,
        p16(20) == 0x100000000000000000000,
        p16(24) == 0x1000000000000000000000000,
        p16(32) == 0x100000000000000000000000000000000,
{
    reveal_with_fuel(p16, 33);
}

/// The lowercase hex digit of value `d`.
pub open spec fn hex_char(d: int) -> char {
    if d == 0 { '0' } else if d == 1 { '1' } else if d == 2 { '2' } else if d == 3 { '3' }
    else if d == 4 { '4' } else if d == 5 { '5' } else if d == 6 { '6' } else if d == 7 { '7' }
    else if d == 8 { '8' } else if d == 9 { '9' } else if d == 10 { 'a' } else if d == 11 { 'b' }
    else if d == 12 { 'c' } else if d == 13 { 'd' } else if d == 14 { 'e' } else if d == 15 { 'f' }
    else { '?' }
}

/// The value of a lowercase hex digit, or -1.
pub open spec fn hex_val(c: char) -> int {
    if c == '0' { 0 } else if c == '1' { 1 } else if c == '2' { 2 } else if c == '3' { 3 }
    else if c == '4' { 4 } else if c == '5' { 5 } else if c == '6' { 6 } else if c == '7' { 7 }
    else if c == '8' { 8 } else if c == '9' { 9 } else if c == 'a' { 10 } else if c == 'b' { 11 }
    else if c == 'c' { 12 } else if c == 'd' { 13 } else if c == 'e' { 14 } else if c == 'f' { 15 }
    else { -1 }
}

/// The low `k` hex digits of `n`, most significant first.
pub open spec fn hex_digits(n: int, k: nat) -> Seq<char>
    decreases k,
{
    if k == 0 {
        Seq::<char>::empty()
    } else {
        hex_digits(n / 16, (k - 1) as nat).push(hex_char(n % 16))
    }
}

/// The hyphenated lowercase hex form of a 128-bit identity, in the usual
/// 8-4-4-4-12 grouping.
pub open spec fn uuid_seq(id: u128) -> Seq<char> {
    let n = id as int;
    hex_digits(n / p16(24), 8) + seq!['-'] + hex_digits(n / p16(20) % p16(4), 4) + seq!['-']
        + hex_digits(n / p16(16) % p16(4), 4) + seq!['-'] + hex_digits(n / p16(12) % p16(4), 4)
        + seq!['-'] + hex_digits(n % p16(12), 12)
}

/// The wire form of an optional address: `null` or a quoted string.
pub open spec fn encode_opt(o: Option<Seq<char>>) -> Seq<char> {
    match o {
        Option::None => "null"@,
        Option::Some(s) => seq!['"'] + escape(s) + seq!['"'],
    }
}

/// The wire form of one interface record.
pub open spec fn encode_item(a: AddrModel) -> Seq<char> {
    "{\"name\":\""@ + escape(a.name) + "\",\"v4\":"@ + encode_opt(a.v4) + ",\"v6\":"@
        + encode_opt(a.v6) + "}"@
}

/// The wire form of the second and later records, each behind a comma.
pub open spec fn encode_items_tail(s: Seq<AddrModel>) -> Seq<char>
    decreases s.len(),
{
    if s.len() == 0 {
        Seq::<char>::empty()
    } else {
        seq![','] + encode_item(s[0]) + encode_items_tail(s.skip(1))
    }
}

/// The comma-separated wire form of a record list, without brackets.
pub open spec fn encode_items(s: Seq<AddrModel>) -> Seq<char> {
    if s.len() == 0 {
        Seq::<char>::empty()
    } else {
        encode_item(s[0]) + encode_items_tail(s.skip(1))
    }
}

proof fn lemma_encode_items_tail_snoc(s: Seq<AddrModel>, a: AddrModel)
    ensures
        encode_items_tail(s.push(a)) == encode_items_tail(s) + seq![','] + encode_item(a),
    decreases s.len(),
{
    if s.len() == 0 {
        let t = s.push(a);
        assert(t.skip(1) =~= Seq::<AddrModel>::empty());
        assert(encode_items_tail(t.skip(1)) == Seq::<char>::empty());
        assert(t[0] == a);
        assert(encode_items_tail(t) == seq![','] + encode_item(a) + encode_items_tail(t.skip(1)));
        assert(encode_items_tail(s) == Seq::<char>::empty());
        assert(encode_items_tail(t) =~= encode_items_tail(s) + seq![','] + encode_item(a));
    } else {
        let t = s.push(a);
        assert(t.len() == s.len() + 1);
        assert(t[0] == s[0]);
        assert(t.skip(1) =~= s.skip(1).push(a));
        lemma_encode_items_tail_snoc(s.skip(1), a);
        assert(encode_items_tail(t) == seq![','] + encode_item(t[0]) + encode_items_tail(
            t.skip(1),
        ));
        assert(encode_items_tail(t.skip(1)) == encode_items_tail(s.skip(1)) + seq![',']
            + encode_item(a));
        assert(encode_items_tail(s) == seq![','] + encode_item(s[0]) + encode_items_tail(
            s.skip(1),
        ));
        assert(encode_items_tail(t) =~= encode_items_tail(s) + seq![','] + encode_item(a));
    }
}

proof fn lemma_encode_items_snoc(s: Seq<AddrModel>, a: AddrModel)
    ensures
        s.len() == 0 ==> encode_items(s.push(a)) == encode_item(a),
        s.len() > 0 ==> encode_items(s.push(a)) == encode_items(s) + seq![','] + encode_item(a),
{
    if s.len() == 0 {
        assert(s.push(a).skip(1) =~= Seq::<AddrModel>::empty());
        assert(encode_items(s.push(a)) =~= encode_item(a));
    } else {
        assert(s.push(a).skip(1) =~= s.skip(1).push(a));
        lemma_encode_items_tail_snoc(s.skip(1), a);
        assert(encode_items(s.push(a)) =~= encode_items(s) + seq![','] + encode_item(a));
    }
}

/// The canonical wire form of a message.
pub open spec fn spec_encode(m: MessageModel) -> Seq<char> {
    match m {
        MessageModel::Acknowledge => "\"Acknowledge\""@,
        MessageModel::AddrRequest => "\"AddrRequest\""@,
        MessageModel::Establish { id, password } => "{\"Establish\":{\"id\":\""@ + uuid_seq(id)
            + "\",\"password\":\""@ + escape(password) + "\"}}"@,
        MessageModel::Error { message } => "{\"Error\":{\"message\":\""@ + escape(message)
            + "\"}}"@,
        MessageModel::AddrResponse { adapter_addresses } =>
            "{\"AddrResponse\":{\"adapter_addresses\":["@ + encode_items(adapter_addresses)
            + "]}}"@,
    }
}

/// The characters of `s` as a vector.
pub fn str_chars(s: &str) -> (r: Vec<char>)
    ensures
        r@ == s@,
{
    let n = s.unicode_len();
    let mut out: Vec<char> = Vec::new();
    let mut i: usize = 0;
    while i < n
        invariant
            n == s@.len(),
            i <= n,
            out@ == s@.take(i as int),
        decreases n - i,
    {
        let c = s.get_char(i);
        out.push(c);
        proof {
            assert(s@.take(i as int + 1) =~= s@.take(i as int).push(s@[i as int]));
        }
        i += 1;
    }
    proof {
        assert(s@.take(n as int) =~= s@);
    }
    out
}

fn push_literal(out: &mut Vec<char>, s: &str)
    ensures
        final(out)@ == old(out)@ + s@,
{
    let n = s.unicode_len();
    let mut i: usize = 0;
    while i < n
        invariant
            n == s@.len(),
            i <= n,
            out@ == old(out)@ + s@.take(i as int),
        decreases n - i,
    {
        let c = s.get_char(i);
        out.push(c);
        proof {
            assert(s@.take(i as int + 1) =~= s@.take(i as int).push(s@[i as int]));
            assert(old(out)@ + s@.take(i as int + 1) =~= (old(out)@ + s@.take(i as int)).push(
                s@[i as int],
            ));
        }
        i += 1;
    }
    proof {
        assert(s@.take(n as int) =~= s@);
    }
}

fn push_escaped(out: &mut Vec<char>, s: &str)
    ensures
        final(out)@ == old(out)@ + escape(s@),
{
    let n = s.unicode_len();
    let mut i: usize = 0;
    while i < n
        invariant
            n == s@.len(),
            i <= n,
            out@ == old(out)@ + escape(s@.take(i as int)),
        decreases n - i,
    {
        let c = s.get_char(i);
        if c == '"' || c == '\\' {
            out.push('\\');
            out.push(c);
        } else {
            out.push(c);
        }
        proof {
            assert(s@.take(i as int + 1) =~= s@.take(i as int).push(s@[i as int]));
            lemma_escape_snoc(s@.take(i as int), s@[i as int]);
            assert(old(out)@ + escape(s@.take(i as int + 1)) =~= old(out)@ + escape(
                s@.take(i as int),
            ) + escape_char(s@[i as int]));
            assert(out@ =~= old(out)@ + escape(s@.take(i as int)) + escape_char(s@[i as int]));
        }
        i += 1;
    }
    proof {
        assert(s@.take(n as int) =~= s@);
    }
}

fn hex_char_exec(d: u128) -> (c: char)
    requires
        d < 16,
    ensures
        c == hex_char(d as int),
{
    if d == 0 { '0' } else if d == 1 { '1' } else if d == 2 { '2' } else if d == 3 { '3' }
    else if d == 4 { '4' } else if d == 5 { '5' } else if d == 6 { '6' } else if d == 7 { '7' }
    else if d == 8 { '8' } else if d == 9 { '9' } else if d == 10 { 'a' } else if d == 11 { 'b' }
    else if d == 12 { 'c' } else if d == 13 { 'd' } else if d == 14 { 'e' } else { 'f' }
}

fn push_hex(out: &mut Vec<char>, n: u128, k: usize)
    ensures
        final(out)@ == old(out)@ + hex_digits(n as int, k as nat),
    decreases k,
{
    if k > 0 {
        push_hex(out, n / 16, k - 1);
        let c = hex_char_exec(n % 16);
        out.push(c);
        proof {
            assert(old(out)@ + hex_digits(n as int, k as nat) =~= (old(out)@ + hex_digits(
                n as int / 16,
                (k - 1) as nat,
            )).push(hex_char(n as int % 16)));
        }
    }
}

pub(crate) fn push_uuid(out: &mut Vec<char>, id: u128)
    ensures
        final(out)@ == old(out)@ + uuid_seq(id),
{
    proof {
        lemma_p16_values();
    }
    push_hex(out, id / 0x1000000000000000000000000u128, 8);
    out.push('-');
    push_hex(out, (id / 0x100000000000000000000u128) % 0x10000, 4);
    out.push('-');
    push_hex(out, (id / 0x10000000000000000u128) % 0x10000, 4);
    out.push('-');
    push_hex(out, (id / 0x1000000000000u128) % 0x10000, 4);
    out.push('-');
    push_hex(out, id % 0x1000000000000u128, 12);
    proof {
        assert(final(out)@ =~= old(out)@ + uuid_seq(id));
    }
}

fn push_opt(out: &mut Vec<char>, o: &Option<String>)
    ensures
        final(out)@ == old(out)@ + encode_opt(
            match o {
                Option::Some(s) => Option::Some(s@),
                Option::None => Option::None,
            },
        ),
{
    match o {
        None => push_literal(out, "null"),
        Some(s) => {
            out.push('"');
            push_escaped(out, s.as_str());
            out.push('"');
            proof {
                assert(final(out)@ =~= old(out)@ + (seq!['"'] + escape(s@) + seq!['"']));
            }
        },
    }
}

fn push_item(out: &mut Vec<char>, a: &IpAddresses)
    ensures
        final(out)@ == old(out)@ + encode_item(a@),
{
    push_literal(out, "{\"name\":\"");
    push_escaped(out, a.name.as_str());
    push_literal(out, "\",\"v4\":");
    push_opt(out, &a.v4);
    push_literal(out, ",\"v6\":");
    push_opt(out, &a.v6);
    push_literal(out, "}");
    proof {
        assert(final(out)@ =~= old(out)@ + encode_item(a@));
    }
}

/// Relies on `String::from_iter` over `char`: the returned string holds
/// exactly the characters of `v`, in order.
#[verifier::external_body]
pub(crate) fn chars_to_string(v: &Vec<char>) -> (r: String)
    ensures
        r@ == v@,
{
    v.iter().collect()
}

/// Writes `m` in its canonical wire form.
pub fn encode_message(m: &MessagePack) -> (r: String)
    ensures
        r@ == spec_encode(m@),
{
    let mut out: Vec<char> = Vec::new();
    match m {
        MessagePack::Acknowledge => push_literal(&mut out, "\"Acknowledge\""),
        MessagePack::AddrRequest => push_literal(&mut out, "\"AddrRequest\""),
        MessagePack::Establish { id, password } => {
            push_literal(&mut out, "{\"Establish\":{\"id\":\"");
            push_uuid(&mut out, *id);
            push_literal(&mut out, "\",\"password\":\"");
            push_escaped(&mut out, password.as_str());
            push_literal(&mut out, "\"}}");
        },
        MessagePack::Error { message } => {
            push_literal(&mut out, "{\"Error\":{\"message\":\"");
            push_escaped(&mut out, message.as_str());
            push_literal(&mut out, "\"}}");
        },
        MessagePack::AddrResponse { adapter_addresses } => {
            push_literal(&mut out, "{\"AddrResponse\":{\"adapter_addresses\":[");
            let ghost base = out@;
            let ghost models = addr_models(adapter_addresses@);
            let mut i: usize = 0;
            while i < adapter_addresses.len()
                invariant
                    i <= adapter_addresses.len(),
                    models == addr_models(adapter_addresses@),
                    models.len() == adapter_addresses@.len(),
                    out@ == base + encode_items(models.take(i as int)),
                decreases adapter_addresses.len() - i,
            {
                if i > 0 {
                    out.push(',');
                }
                push_item(&mut out, &adapter_addresses[i]);
                proof {
                    assert(models.take(i as int + 1) =~= models.take(i as int).push(
                        models[i as int],
                    ));
                    lemma_encode_items_snoc(models.take(i as int), models[i as int]);
                    assert(models[i as int] == adapter_addresses@[i as int]@);
                    assert(out@ =~= base + encode_items(models.take(i as int + 1)));
                }
                i += 1;
            }
            proof {
                assert(models.take(models.len() as int) =~= models);
            }
            push_literal(&mut out, "]}}");
            proof {
                assert(out@ =~= "{\"AddrResponse\":{\"adapter_addresses\":["@ + encode_items(
                    models,
                ) + "]}}"@);
            }
        },
    }
    proof {
        assert(out@ =~= spec_encode(m@));
    }
    chars_to_string(&out)
}

/// The escape codes accepted after a backslash.
pub open spec fn is_escape_code(c: char) -> bool {
    c == '"' || c == '\\' || c == 'n' || c == 't' || c == 'r'
}

/// The character an accepted escape code stands for.
pub open spec fn unescape_char(c: char) -> char {
    if c == 'n' {
        '\n'
    } else if c == 't' {
        '\t'
    } else if c == 'r' {
        '\r'
    } else {
        c
    }
}

/// Reads a quoted string from position `i` (just past the opening quote) up
/// to and including the closing quote; yields the unescaped content and the
/// position just past the closing quote.
pub open spec fn sp_scan(s: Seq<char>, i: int) -> Option<(Seq<char>, int)>
    decreases s.len() - i,
{
    if i < 0 || i >= s.len() {
        Option::None
    } else if s[i] == '"' {
        Option::Some((Seq::<char>::empty(), i + 1))
    } else if s[i] == '\\' {
        if i + 1 < s.len() && is_escape_code(s[i + 1]) {
            match sp_scan(s, i + 2) {
                Option::Some((t, j)) => Option::Some((seq![unescape_char(s[i + 1])] + t, j)),
                Option::None => Option::None,
            }
        } else {
            Option::None
        }
    } else {
        match sp_scan(s, i + 1) {
            Option::Some((t, j)) => Option::Some((seq![s[i]] + t, j)),
            Option::None => Option::None,
        }
    }
}

/// Reads `k` hex digits from position `i`, folding them onto `acc`.
pub open spec fn sp_hex_run(s: Seq<char>, i: int, k: nat, acc: int) -> Option<int>
    decreases k,
{
    if k == 0 {
        Option::Some(acc)
    } else if 0 <= i < s.len() && hex_val(s[i]) >= 0 {
        sp_hex_run(s, i + 1, (k - 1) as nat, acc * 16 + hex_val(s[i]))
    } else {
        Option::None
    }
}

/// Reads a 36-character hyphenated identity from position `i`.
pub open spec fn sp_uuid_parse(s: Seq<char>, i: int) -> Option<u128> {
    if 0 <= i && i + 36 <= s.len() && s[i + 8] == '-' && s[i + 13] == '-' && s[i + 18] == '-'
        && s[i + 23] == '-' {
        match (sp_hex_run(s, i, 8, 0), sp_hex_run(s, i + 9, 4, 0), sp_hex_run(s, i + 14, 4, 0),
        sp_hex_run(s, i + 19, 4, 0), sp_hex_run(s, i + 24, 12, 0)) {
            (
                Option::Some(g1),
                Option::Some(g2),
                Option::Some(g3),
                Option::Some(g4),
                Option::Some(g5),
            ) => {
                let n = g1 * p16(24) + g2 * p16(20) + g3 * p16(16) + g4 * p16(12) + g5;
                if 0 <= n < p16(32) {
                    Option::Some(n as u128)
                } else {
                    Option::None
                }
            },
            _ => Option::None,
        }
    } else {
        Option::None
    }
}

/// `p` occurs in `s` at position `i`.
pub open spec fn has_prefix(s: Seq<char>, i: int, p: Seq<char>) -> bool {
    0 <= i && i + p.len() <= s.len() && s.subrange(i, i + p.len()) == p
}

/// Reads `null` or a quoted string.
pub open spec fn sp_opt(s: Seq<char>, i: int) -> Option<(Option<Seq<char>>, int)> {
    if has_prefix(s, i, "null"@) {
        Option::Some((Option::None, i + "null"@.len()))
    } else if 0 <= i && i < s.len() && s[i] == '"' {
        match sp_scan(s, i + 1) {
            Option::Some((t, j)) => Option::Some((Option::Some(t), j)),
            Option::None => Option::None,
        }
    } else {
        Option::None
    }
}

/// Reads one interface record object.
pub open spec fn sp_item(s: Seq<char>, i: int) -> Option<(AddrModel, int)> {
    let pre = "{\"name\":\""@;
    if has_prefix(s, i, pre) {
        match sp_scan(s, i + pre.len()) {
            Option::Some((name, j)) => {
                let m4 = ",\"v4\":"@;
                if has_prefix(s, j, m4) {
                    match sp_opt(s, j + m4.len()) {
                        Option::Some((v4, j2)) => {
                            let m6 = ",\"v6\":"@;
                            if has_prefix(s, j2, m6) {
                                match sp_opt(s, j2 + m6.len()) {
                                    Option::Some((v6, j3)) => {
                                        if j3 < s.len() && s[j3] == '}' {
                                            Option::Some((AddrModel { name, v4, v6 }, j3 + 1))
                                        } else {
                                            Option::None
                                        }
                                    },
                                    Option::None => Option::None,
                                }
                            } else {
                                Option::None
                            }
                        },
                        Option::None => Option::None,
                    }
                } else {
                    Option::None
                }
            },
            Option::None => Option::None,
        }
    } else {
        Option::None
    }
}

/// Reads `]` or `,` followed by another record, after a first record.
pub open spec fn sp_items_tail(s: Seq<char>, i: int) -> Option<(Seq<AddrModel>, int)>
    decreases s.len() - i,
{
    if i < 0 || i >= s.len() {
        Option::None
    } else if s[i] == ']' {
        Option::Some((Seq::<AddrModel>::empty(), i + 1))
    } else if s[i] == ',' {
        match sp_item(s, i + 1) {
            Option::Some((a, j)) => {
                if j <= i + 1 || j > s.len() {
                    Option::None
                } else {
                    match sp_items_tail(s, j) {
                        Option::Some((rest, k)) => Option::Some((seq![a] + rest, k)),
                        Option::None => Option::None,
                    }
                }
            },
            Option::None => Option::None,
        }
    } else {
        Option::None
    }
}

/// Reads a whole record list up to and including the closing bracket.
pub open spec fn sp_items(s: Seq<char>, i: int) -> Option<(Seq<AddrModel>, int)> {
    if i < 0 || i >= s.len() {
        Option::None
    } else if s[i] == ']' {
        Option::Some((Seq::<AddrModel>::empty(), i + 1))
    } else {
        match sp_item(s, i) {
            Option::Some((a, j)) => {
                if j <= i || j > s.len() {
                    Option::None
                } else {
                    match sp_items_tail(s, j) {
                        Option::Some((rest, k)) => Option::Some((seq![a] + rest, k)),
                        Option::None => Option::None,
                    }
                }
            },
            Option::None => Option::None,
        }
    }
}

/// Reads a whole message; `None` is malformed or non-canonical input.
pub open spec fn sp_message(s: Seq<char>) -> Option<MessageModel> {
    if s == "\"Acknowledge\""@ {
        Option::Some(MessageModel::Acknowledge)
    } else if s == "\"AddrRequest\""@ {
        Option::Some(MessageModel::AddrRequest)
    } else {
        let est = "{\"Establish\":{\"id\":\""@;
        let err = "{\"Error\":{\"message\":\""@;
        let resp = "{\"AddrResponse\":{\"adapter_addresses\":["@;
        if has_prefix(s, 0, est) {
            match sp_uuid_parse(s, est.len() as int) {
                Option::Some(id) => {
                    let mid = "\",\"password\":\""@;
                    if has_prefix(s, est.len() as int + 36, mid) {
                        match sp_scan(s, est.len() as int + 36 + mid.len() as int) {
                            Option::Some((pw, j)) => {
                                if j + 2 == s.len() && s[j] == '}' && s[j + 1] == '}' {
                                    Option::Some(MessageModel::Establish { id, password: pw })
                                } else {
                                    Option::None
                                }
                            },
                            Option::None => Option::None,
                        }
                    } else {
                        Option::None
                    }
                },
                Option::None => Option::None,
            }
        } else if has_prefix(s, 0, err) {
            match sp_scan(s, err.len() as int) {
                Option::Some((msg, j)) => {
                    if j + 2 == s.len() && s[j] == '}' && s[j + 1] == '}' {
                        Option::Some(MessageModel::Error { message: msg })
                    } else {
                        Option::None
                    }
                },
                Option::None => Option::None,
            }
        } else if has_prefix(s, 0, resp) {
            match sp_items(s, resp.len() as int) {
                Option::Some((items, j)) => {
                    if j + 2 == s.len() && s[j] == '}' && s[j + 1] == '}' {
                        Option::Some(MessageModel::AddrResponse { adapter_addresses: items })
                    } else {
                        Option::None
                    }
                },
                Option::None => Option::None,
            }
        } else {
            Option::None
        }
    }
}

/// The decoded form of a parsed message: a response's records are collapsed
/// per interface name, last write per family winning.
pub open spec fn norm_message(m: MessageModel) -> MessageModel {
    match m {
        MessageModel::AddrResponse { adapter_addresses } => (MessageModel::AddrResponse {
            adapter_addresses: merged(adapter_addresses),
        }),
        _ => m,
    }
}

/// What decoding yields on any input.
pub open spec fn spec_decode(s: Seq<char>) -> Option<MessageModel> {
    match sp_message(s) {
        Option::Some(m) => Option::Some(norm_message(m)),
        Option::None => Option::None,
    }
}

fn is_escape_code_exec(c: char) -> (r: bool)
    ensures
        r == is_escape_code(c),
{
    c == '"' || c == '\\' || c == 'n' || c == 't' || c == 'r'
}

fn unescape_char_exec(c: char) -> (r: char)
    ensures
        r == unescape_char(c),
{
    if c == 'n' {
        '\n'
    } else if c == 't' {
        '\t'
    } else if c == 'r' {
        '\r'
    } else {
        c
    }
}

fn hex_val_exec(c: char) -> (r: Option<u8>)
    ensures
        match r {
            Option::Some(d) => hex_val(c) == d as int && d < 16,
            Option::None => hex_val(c) < 0,
        },
{
    if c == '0' { Some(0) } else if c == '1' { Some(1) } else if c == '2' { Some(2) }
    else if c == '3' { Some(3) } else if c == '4' { Some(4) } else if c == '5' { Some(5) }
    else if c == '6' { Some(6) } else if c == '7' { Some(7) } else if c == '8' { Some(8) }
    else if c == '9' { Some(9) } else if c == 'a' { Some(10) } else if c == 'b' { Some(11) }
    else if c == 'c' { Some(12) } else if c == 'd' { Some(13) } else if c == 'e' { Some(14) }
    else if c == 'f' { Some(15) } else { None }
}

fn check_prefix(v: &Vec<char>, i: usize, p: &str) -> (r: bool)
    ensures
        r == has_prefix(v@, i as int, p@),
{
    let n = p.unicode_len();
    if i > v.len() || n > v.len() - i {
        proof {
            assert(!has_prefix(v@, i as int, p@));
        }
        return false;
    }
    let mut k: usize = 0;
    while k < n
        invariant
            k <= n,
            n == p@.len(),
            i + n <= v.len(),
            forall|j: int| 0 <= j < k ==> v@[i + j] == p@[j],
        decreases n - k,
    {
        if v[i + k] != p.get_char(k) {
            proof {
                if has_prefix(v@, i as int, p@) {
                    assert(v@.subrange(i as int, i as int + p@.len() as int)[k as int]
                        == p@[k as int]);
                }
            }
            return false;
        }
        k += 1;
    }
    proof {
        assert(v@.subrange(i as int, i as int + p@.len() as int) =~= p@);
    }
    true
}

fn eq_lit(v: &Vec<char>, p: &str) -> (r: bool)
    ensures
        r == (v@ == p@),
{
    let n = p.unicode_len();
    if v.len() != n {
        proof {
            if v@ == p@ {
                assert(v@.len() == p@.len());
            }
        }
        return false;
    }
    let r = check_prefix(v, 0, p);
    proof {
        if r {
            assert(v@.subrange(0, p@.len() as int) =~= v@);
        } else {
            if v@ == p@ {
                assert(v@.subrange(0, p@.len() as int) =~= p@);
            }
        }
    }
    r
}

fn px_scan(v: &Vec<char>, i: usize) -> (r: Option<(Vec<char>, usize)>)
    ensures
        match r {
            Option::Some((t, j)) => sp_scan(v@, i as int) == Option::Some((t@, j as int)) && i < j
                <= v@.len(),
            Option::None => sp_scan(v@, i as int) is None,
        },
    decreases v@.len() - i,
{
    if i >= v.len() {
        return None;
    }
    let c = v[i];
    if c == '"' {
        Some((Vec::new(), i + 1))
    } else if c == '\\' {
        if i + 1 < v.len() && is_escape_code_exec(v[i + 1]) {
            let u = unescape_char_exec(v[i + 1]);
            match px_scan(v, i + 2) {
                Some((t, j)) => {
                    let mut t2 = t;
                    t2.insert(0, u);
                    proof {
                        assert(t2@ =~= seq![unescape_char(v@[i as int + 1])] + t2@.skip(1));
                    }
                    Some((t2, j))
                },
                None => None,
            }
        } else {
            None
        }
    } else {
        match px_scan(v, i + 1) {
            Some((t, j)) => {
                let mut t2 = t;
                t2.insert(0, c);
                proof {
                    assert(t2@ =~= seq![v@[i as int]] + t2@.skip(1));
                }
                Some((t2, j))
            },
            None => None,
        }
    }
}

proof fn lemma_p16_mono(a: nat, b: nat)
    requires
        a <= b,
    ensures
        p16(a) <= p16(b),
    decreases b,
{
    if a < b {
        lemma_p16_mono(a, (b - 1) as nat);
        lemma_p16_pos((b - 1) as nat);
    }
}

fn px_hex_run(v: &Vec<char>, i: usize, k: usize) -> (r: Option<u128>)
    requires
        k <= 12,
        i + k <= v@.len(),
    ensures
        match r {
            Option::Some(g) => sp_hex_run(v@, i as int, k as nat, 0) == Option::Some(g as int) && (
            g as int) < p16(k as nat),
            Option::None => sp_hex_run(v@, i as int, k as nat, 0) is None,
        },
{
    let mut acc: u128 = 0;
    let mut t: usize = 0;
    proof {
        lemma_p16_values();
        assert(v@.len() == v.len());
    }
    while t < k
        invariant
            t <= k,
            k <= 12,
            i + k <= v@.len(),
            v@.len() <= usize::MAX,
            (acc as int) < p16(t as nat),
            p16(12) == 0x1000000000000,
            sp_hex_run(v@, i as int, k as nat, 0) == sp_hex_run(
                v@,
                i as int + t,
                (k - t) as nat,
                acc as int,
            ),
        decreases k - t,
    {
        let c = v[i + t];
        match hex_val_exec(c) {
            None => {
                proof {
                    assert(sp_hex_run(v@, i as int + t, (k - t) as nat, acc as int) is None);
                }
                return None;
            },
            Some(d) => {
                proof {
                    let tn: nat = (t + 1) as nat;
                    lemma_p16_mono(tn, 12);
                    assert((acc as int) * 16 + (d as int) < p16(tn));
                }
                acc = acc * 16 + (d as u128);
                t += 1;
            },
        }
    }
    Some(acc)
}

pub(crate) fn px_uuid(v: &Vec<char>, i: usize) -> (r: Option<u128>)
    ensures
        match r {
            Option::Some(id) => sp_uuid_parse(v@, i as int) == Option::Some(id),
            Option::None => sp_uuid_parse(v@, i as int) is None,
        },
{
    if i > v.len() || v.len() - i < 36 {
        return None;
    }
    if !(v[i + 8] == '-' && v[i + 13] == '-' && v[i + 18] == '-' && v[i + 23] == '-') {
        return None;
    }
    let g1 = match px_hex_run(v, i, 8) {
        Some(g) => g,
        None => {
            return None;
        },
    };
    let g2 = match px_hex_run(v, i + 9, 4) {
        Some(g) => g,
        None => {
            return None;
        },
    };
    let g3 = match px_hex_run(v, i + 14, 4) {
        Some(g) => g,
        None => {
            return None;
        },
    };
    let g4 = match px_hex_run(v, i + 19, 4) {
        Some(g) => g,
        None => {
            return None;
        },
    };
    let g5 = match px_hex_run(v, i + 24, 12) {
        Some(g) => g,
        None => {
            return None;
        },
    };
    proof {
        lemma_p16_values();
        assert(p16(8) == 0x100000000) by {
            reveal_with_fuel(p16, 9);
        }
    }
    let n: u128 = g1 * 0x1000000000000000000000000u128 + g2 * 0x100000000000000000000u128 + g3
        * 0x10000000000000000u128 + g4 * 0x1000000000000u128 + g5;
    Some(n)
}

fn px_opt(v: &Vec<char>, i: usize) -> (r: Option<(Option<Vec<char>>, usize)>)
    ensures
        match r {
            Option::Some((o, j)) => sp_opt(v@, i as int) == Option::Some(
                (
                    match o {
                        Option::Some(t) => Option::Some(t@),
                        Option::None => Option::None,
                    },
                    j as int,
                ),
            ) && i < j <= v@.len(),
            Option::None => sp_opt(v@, i as int) is None,
        },
{
    if check_prefix(v, i, "null") {
        proof {
            reveal_strlit("null");
            assert(v@.len() == v.len());
        }
        Some((None, i + 4))
    } else if i < v.len() && v[i] == '"' {
        match px_scan(v, i + 1) {
            Some((t, j)) => Some((Some(t), j)),
            None => None,
        }
    } else {
        None
    }
}

fn px_item(v: &Vec<char>, i: usize) -> (r: Option<(IpAddresses, usize)>)
    ensures
        match r {
            Option::Some((a, j)) => sp_item(v@, i as int) == Option::Some((a@, j as int)) && i < j
                <= v@.len(),
            Option::None => sp_item(v@, i as int) is None,
        },
{
    proof {
        reveal_strlit("{\"name\":\"");
        reveal_strlit(",\"v4\":");
        reveal_strlit(",\"v6\":");
        assert(v@.len() == v.len());
    }
    if !check_prefix(v, i, "{\"name\":\"") {
        return None;
    }
    let (name_t, j) = match px_scan(v, i + 9) {
        Some(p) => p,
        None => {
            return None;
        },
    };
    if !check_prefix(v, j, ",\"v4\":") {
        return None;
    }
    let (v4, j2) = match px_opt(v, j + 6) {
        Some(p) => p,
        None => {
            return None;
        },
    };
    if !check_prefix(v, j2, ",\"v6\":") {
        return None;
    }
    let (v6, j3) = match px_opt(v, j2 + 6) {
        Some(p) => p,
        None => {
            return None;
        },
    };
    if j3 < v.len() && v[j3] == '}' {
        let rec = IpAddresses {
            name: chars_to_string(&name_t),
            v4: match v4 {
                Some(t) => Some(chars_to_string(&t)),
                None => None,
            },
            v6: match v6 {
                Some(t) => Some(chars_to_string(&t)),
                None => None,
            },
        };
        Some((rec, j3 + 1))
    } else {
        None
    }
}

fn px_items_tail(v: &Vec<char>, i: usize) -> (r: Option<(Vec<IpAddresses>, usize)>)
    ensures
        match r {
            Option::Some((items, j)) => sp_items_tail(v@, i as int) == Option::Some(
                (addr_models(items@), j as int),
            ) && i < j <= v@.len(),
            Option::None => sp_items_tail(v@, i as int) is None,
        },
    decreases v@.len() - i,
{
    if i >= v.len() {
        return None;
    }
    if v[i] == ']' {
        proof {
            assert(addr_models(Seq::<IpAddresses>::empty()) =~= Seq::<AddrModel>::empty());
        }
        return Some((Vec::new(), i + 1));
    }
    if v[i] == ',' {
        match px_item(v, i + 1) {
            Some((a, j)) => {
                match px_items_tail(v, j) {
                    Some((rest, j2)) => {
                        let mut items = rest;
                        items.insert(0, a);
                        proof {
                            assert(addr_models(items@) =~= seq![a@] + addr_models(items@.skip(1)));
                            assert(items@.skip(1) =~= items@.remove(0));
                        }
                        Some((items, j2))
                    },
                    None => None,
                }
            },
            None => None,
        }
    } else {
        None
    }
}

fn px_items(v: &Vec<char>, i: usize) -> (r: Option<(Vec<IpAddresses>, usize)>)
    ensures
        match r {
            Option::Some((items, j)) => sp_items(v@, i as int) == Option::Some(
                (addr_models(items@), j as int),
            ) && i < j <= v@.len(),
            Option::None => sp_items(v@, i as int) is None,
        },
{
    if i >= v.len() {
        return None;
    }
    if v[i] == ']' {
        proof {
            assert(addr_models(Seq::<IpAddresses>::empty()) =~= Seq::<AddrModel>::empty());
        }
        return Some((Vec::new(), i + 1));
    }
    match px_item(v, i) {
        Some((a, j)) => {
            match px_items_tail(v, j) {
                Some((rest, j2)) => {
                    let mut items = rest;
                    items.insert(0, a);
                    proof {
                        assert(addr_models(items@) =~= seq![a@] + addr_models(items@.skip(1)));
                        assert(items@.skip(1) =~= items@.remove(0));
                    }
                    Some((items, j2))
                },
                None => None,
            }
        },
        None => None,
    }
}

fn px_message(v: &Vec<char>) -> (r: Option<MessagePack>)
    ensures
        match r {
            Option::Some(m) => sp_message(v@) == Option::Some(m@),
            Option::None => sp_message(v@) is None,
        },
{
    if eq_lit(v, "\"Acknowledge\"") {
        return Some(MessagePack::Acknowledge);
    }
    if eq_lit(v, "\"AddrRequest\"") {
        return Some(MessagePack::AddrRequest);
    }
    proof {
        reveal_strlit("{\"Establish\":{\"id\":\"");
        reveal_strlit("{\"Error\":{\"message\":\"");
        reveal_strlit("{\"AddrResponse\":{\"adapter_addresses\":[");
        reveal_strlit("\",\"password\":\"");
    }
    if check_prefix(v, 0, "{\"Establish\":{\"id\":\"") {
        let id = match px_uuid(v, 20) {
            Some(g) => g,
            None => {
                return None;
            },
        };
        if !check_prefix(v, 56, "\",\"password\":\"") {
            return None;
        }
        let (pw, j) = match px_scan(v, 70) {
            Some(p) => p,
            None => {
                return None;
            },
        };
        if v.len() >= 2 && j == v.len() - 2 && v[j] == '}' && v[j + 1] == '}' {
            Some(MessagePack::Establish { id, password: chars_to_string(&pw) })
        } else {
            None
        }
    } else if check_prefix(v, 0, "{\"Error\":{\"message\":\"") {
        let (msg, j) = match px_scan(v, 21) {
            Some(p) => p,
            None => {
                return None;
            },
        };
        if v.len() >= 2 && j == v.len() - 2 && v[j] == '}' && v[j + 1] == '}' {
            Some(MessagePack::Error { message: chars_to_string(&msg) })
        } else {
            None
        }
    } else if check_prefix(v, 0, "{\"AddrResponse\":{\"adapter_addresses\":[") {
        let (items, j) = match px_items(v, 38) {
            Some(p) => p,
            None => {
                return None;
            },
        };
        if v.len() >= 2 && j == v.len() - 2 && v[j] == '}' && v[j + 1] == '}' {
            Some(MessagePack::AddrResponse { adapter_addresses: items })
        } else {
            None
        }
    } else {
        None
    }
}

/// Reads one message from its textual wire form.  Malformed or
/// non-canonical text is rejected, carrying the original text for
/// diagnostics; a response's records are collapsed per interface name.
pub fn decode_message(text: &str) -> (r: Result<MessagePack, CoreError>)
    ensures
        match r {
            Ok(m) => spec_decode(text@) == Option::Some(m@),
            Err(e) => spec_decode(text@) is None && (e@ matches ErrorModel::MalformedMessage(t)
                && t == text@),
        },
{
    let v = str_chars(text);
    match px_message(&v) {
        Some(m) => {
            match m {
                MessagePack::AddrResponse { adapter_addresses } => {
                    let merged_items = merge_adapter_sets(&adapter_addresses);
                    Ok(MessagePack::AddrResponse { adapter_addresses: merged_items })
                },
                other => Ok(other),
            }
        },
        None => Err(CoreError::MalformedMessage(text.to_owned())),
    }
}

proof fn lemma_hex_digits_len(n: int, k: nat)
    ensures
        hex_digits(n, k).len() == k,
    decreases k,
{
    if k > 0 {
        lemma_hex_digits_len(n / 16, (k - 1) as nat);
    }
}

proof fn lemma_hex_char_val(d: int)
    requires
        0 <= d < 16,
    ensures
        hex_val(hex_char(d)) == d,
{
}

proof fn lemma_hex_digits_front(n: int, k: nat)
    requires
        n >= 0,
        k > 0,
    ensures
        hex_digits(n, k) == seq![hex_char((n / p16((k - 1) as nat)) % 16)] + hex_digits(
            n,
            (k - 1) as nat,
        ),
    decreases k,
{
    let km = (k - 1) as nat;
    lemma_p16_pos(km);
    if k == 1 {
        assert(p16(0) == 1);
        assert(hex_digits(n / 16, 0) == Seq::<char>::empty());
        assert(hex_digits(n, 0) == Seq::<char>::empty());
        assert(hex_digits(n, 1) == hex_digits(n / 16, 0).push(hex_char(n % 16)));
        assert(hex_digits(n, 1) =~= seq![hex_char((n / p16(0)) % 16)] + hex_digits(n, 0));
    } else {
        let km2 = (k - 2) as nat;
        lemma_p16_pos(km2);
        lemma_hex_digits_front(n / 16, km);
        vstd::arithmetic::div_mod::lemma_div_pos_is_pos(n, 16);
        vstd::arithmetic::div_mod::lemma_div_denominator(n, 16, p16(km2));
        assert(16 * p16(km2) == p16(km));
        assert((n / 16) / p16(km2) == n / p16(km));
        assert(hex_digits(n, k) == hex_digits(n / 16, km).push(hex_char(n % 16)));
        assert(hex_digits(n, km) == hex_digits(n / 16, km2).push(hex_char(n % 16)));
        assert(hex_digits(n / 16, km) == seq![hex_char((n / p16(km)) % 16)] + hex_digits(
            n / 16,
            km2,
        ));
        assert(hex_digits(n, k) =~= seq![hex_char((n / p16(km)) % 16)] + hex_digits(n, km));
    }
}

proof fn lemma_hex_run_complete(s: Seq<char>, i: int, k: nat, a: int, n: int)
    requires
        0 <= i,
        i + k <= s.len(),
        n >= 0,
        a >= 0,
        s.subrange(i, i + k) == hex_digits(n, k),
    ensures
        sp_hex_run(s, i, k, a) == Option::Some(a * p16(k) + n % p16(k)),
    decreases k,
{
    lemma_p16_pos(k);
    if k == 0 {
        assert(n % 1 == 0);
        assert(p16(0) == 1);
    } else {
        let km = (k - 1) as nat;
        lemma_p16_pos(km);
        lemma_hex_digits_front(n, k);
        lemma_hex_digits_len(n, k);
        lemma_hex_digits_len(n, km);
        let top = (n / p16(km)) % 16;
        vstd::arithmetic::div_mod::lemma_div_pos_is_pos(n, p16(km));
        assert(0 <= top < 16);
        lemma_hex_char_val(top);
        assert forall|j: int| 0 <= j < k implies s[i + j] == hex_digits(n, k)[j] by {
            assert(hex_digits(n, k)[j] == s.subrange(i, i + k)[j]);
        }
        assert(s[i + 0] == hex_digits(n, k)[0]);
        assert(hex_digits(n, k)[0] == (seq![hex_char((n / p16(km)) % 16)] + hex_digits(n, km))[0]);
        assert(s[i] == hex_char(top));
        assert(hex_val(s[i]) == top);
        assert(s.subrange(i + 1, i + 1 + km) =~= hex_digits(n, km)) by {
            assert forall|j: int| 0 <= j < km implies s.subrange(i + 1, i + 1 + km)[j]
                == hex_digits(n, km)[j] by {
                assert(s.subrange(i + 1, i + 1 + km)[j] == s[i + 1 + j]);
                assert(s[i + 1 + j] == hex_digits(n, k)[1 + j]);
                assert(hex_digits(n, k)[1 + j] == (seq![hex_char((n / p16(km)) % 16)] + hex_digits(
                    n,
                    km,
                ))[1 + j]);
            }
        }
        lemma_hex_run_complete(s, i + 1, km, a * 16 + top, n);
        vstd::arithmetic::div_mod::lemma_breakdown(n, p16(km), 16);
        assert(p16(km) * 16 == p16(k));
        assert(n % p16(k) == p16(km) * ((n / p16(km)) % 16) + n % p16(km));
        assert((a * 16 + top) * p16(km) == a * (16 * p16(km)) + top * p16(km))
            by (nonlinear_arith);
        assert((a * 16 + top) * p16(km) + n % p16(km) == a * p16(k) + n % p16(k));
        assert(sp_hex_run(s, i, k, a) == sp_hex_run(s, i + 1, km, a * 16 + top));
    }
}

#[verifier::rlimit(50)]
proof fn lemma_uuid_complete(s: Seq<char>, i: int, id: u128)
    requires
        0 <= i,
        i + 36 <= s.len(),
        s.subrange(i, i + 36) == uuid_seq(id),
    ensures
        sp_uuid_parse(s, i) == Option::Some(id),
{
    lemma_p16_values();
    let n = id as int;
    vstd::arithmetic::div_mod::lemma_div_pos_is_pos(n, p16(24));
    vstd::arithmetic::div_mod::lemma_div_pos_is_pos(n, p16(20));
    vstd::arithmetic::div_mod::lemma_div_pos_is_pos(n, p16(16));
    vstd::arithmetic::div_mod::lemma_div_pos_is_pos(n, p16(12));
    vstd::arithmetic::div_mod::lemma_mod_bound(n / p16(20), p16(4));
    vstd::arithmetic::div_mod::lemma_mod_bound(n / p16(16), p16(4));
    vstd::arithmetic::div_mod::lemma_mod_bound(n / p16(12), p16(4));
    vstd::arithmetic::div_mod::lemma_mod_bound(n, p16(12));
    let n1 = n / p16(24);
    let n2 = n / p16(20) % p16(4);
    let n3 = n / p16(16) % p16(4);
    let n4 = n / p16(12) % p16(4);
    let n5 = n % p16(12);
    let d1 = hex_digits(n1, 8);
    let d2 = hex_digits(n2, 4);
    let d3 = hex_digits(n3, 4);
    let d4 = hex_digits(n4, 4);
    let d5 = hex_digits(n5, 12);
    lemma_hex_digits_len(n1, 8);
    lemma_hex_digits_len(n2, 4);
    lemma_hex_digits_len(n3, 4);
    lemma_hex_digits_len(n4, 4);
    lemma_hex_digits_len(n5, 12);
    let u = uuid_seq(id);
    assert(u == d1 + seq!['-'] + d2 + seq!['-'] + d3 + seq!['-'] + d4 + seq!['-'] + d5);
    assert(u.len() == 36);
    assert forall|j: int| 0 <= j < 36 implies s[i + j] == u[j] by {
        assert(u[j] == s.subrange(i, i + 36)[j]);
    }
    assert(u[8] == '-');
    assert(u[13] == '-');
    assert(u[18] == '-');
    assert(u[23] == '-');
    assert(s[i + 8] == '-');
    assert(s[i + 13] == '-');
    assert(s[i + 18] == '-');
    assert(s[i + 23] == '-');
    assert(s.subrange(i, i + 8) =~= d1) by {
        assert forall|j: int| 0 <= j < 8 implies s.subrange(i, i + 8)[j] == d1[j] by {
            assert(s.subrange(i, i + 8)[j] == s[i + j]);
            assert(u[j] == d1[j]);
        }
    }
    assert(s.subrange(i + 9, i + 13) =~= d2) by {
        assert forall|j: int| 0 <= j < 4 implies s.subrange(i + 9, i + 13)[j] == d2[j] by {
            assert(s.subrange(i + 9, i + 13)[j] == s[i + 9 + j]);
            assert(u[9 + j] == d2[j]);
        }
    }
    assert(s.subrange(i + 14, i + 18) =~= d3) by {
        assert forall|j: int| 0 <= j < 4 implies s.subrange(i + 14, i + 18)[j] == d3[j] by {
            assert(s.subrange(i + 14, i + 18)[j] == s[i + 14 + j]);
            assert(u[14 + j] == d3[j]);
        }
    }
    assert(s.subrange(i + 19, i + 23) =~= d4) by {
        assert forall|j: int| 0 <= j < 4 implies s.subrange(i + 19, i + 23)[j] == d4[j] by {
            assert(s.subrange(i + 19, i + 23)[j] == s[i + 19 + j]);
            assert(u[19 + j] == d4[j]);
        }
    }
    assert(s.subrange(i + 24, i + 36) =~= d5) by {
        assert forall|j: int| 0 <= j < 12 implies s.subrange(i + 24, i + 36)[j] == d5[j] by {
            assert(s.subrange(i + 24, i + 36)[j] == s[i + 24 + j]);
            assert(u[24 + j] == d5[j]);
        }
    }
    assert(n < p16(32));
    assert(p16(24) * p16(8) == p16(32));
    vstd::arithmetic::div_mod::lemma_multiply_divide_lt(n, p16(24), p16(8));
    assert(n1 < p16(8));
    lemma_hex_run_complete(s, i, 8, 0, n1);
    lemma_hex_run_complete(s, i + 9, 4, 0, n2);
    lemma_hex_run_complete(s, i + 14, 4, 0, n3);
    lemma_hex_run_complete(s, i + 19, 4, 0, n4);
    lemma_hex_run_complete(s, i + 24, 12, 0, n5);
    vstd::arithmetic::div_mod::lemma_small_mod(n1 as nat, p16(8) as nat);
    vstd::arithmetic::div_mod::lemma_small_mod(n2 as nat, p16(4) as nat);
    vstd::arithmetic::div_mod::lemma_small_mod(n3 as nat, p16(4) as nat);
    vstd::arithmetic::div_mod::lemma_small_mod(n4 as nat, p16(4) as nat);
    vstd::arithmetic::div_mod::lemma_small_mod(n5 as nat, p16(12) as nat);
    assert(sp_hex_run(s, i, 8, 0) == Option::Some(n1));
    assert(sp_hex_run(s, i + 9, 4, 0) == Option::Some(n2));
    assert(sp_hex_run(s, i + 14, 4, 0) == Option::Some(n3));
    assert(sp_hex_run(s, i + 19, 4, 0) == Option::Some(n4));
    assert(sp_hex_run(s, i + 24, 12, 0) == Option::Some(n5));
    vstd::arithmetic::div_mod::lemma_fundamental_div_mod(n, p16(24));
    vstd::arithmetic::div_mod::lemma_breakdown(n, p16(20), p16(4));
    vstd::arithmetic::div_mod::lemma_breakdown(n, p16(16), p16(4));
    vstd::arithmetic::div_mod::lemma_breakdown(n, p16(12), p16(4));
    assert(n % p16(24) == p16(20) * n2 + n % p16(20));
    assert(n % p16(20) == p16(16) * n3 + n % p16(16));
    assert(n % p16(16) == p16(12) * n4 + n5);
    let val = n1 * p16(24) + n2 * p16(20) + n3 * p16(16) + n4 * p16(12) + n5;
    assert(val == n);
    assert(0 <= val < p16(32));
    assert(sp_uuid_parse(s, i) == Option::Some(id));
}

proof fn lemma_scan_complete(s: Seq<char>, i: int, t: Seq<char>)
    requires
        0 <= i,
        i + escape(t).len() < s.len(),
        s.subrange(i, i + escape(t).len()) == escape(t),
        s[i + escape(t).len()] == '"',
    ensures
        sp_scan(s, i) == Option::Some((t, i + escape(t).len() + 1)),
    decreases t.len(),
{
    if t.len() == 0 {
        assert(escape(t).len() == 0);
        assert(s[i] == '"');
    } else {
        let c = t[0];
        let t2 = t.skip(1);
        assert(escape(t) == escape_char(c) + escape(t2));
        let ec = escape_char(c);
        let el = escape(t).len();
        assert forall|j: int| 0 <= j < el implies s[i + j] == escape(t)[j] by {
            assert(escape(t)[j] == s.subrange(i, i + el)[j]);
        }
        let i2 = i + ec.len();
        assert(s.subrange(i2, i2 + escape(t2).len()) =~= escape(t2)) by {
            assert forall|j: int|
                0 <= j < escape(t2).len() implies s.subrange(i2, i2 + escape(t2).len())[j]
                == escape(t2)[j] by {
                assert(s.subrange(i2, i2 + escape(t2).len())[j] == s[i2 + j]);
                assert(s[i2 + j] == escape(t)[ec.len() + j]);
            }
        }
        assert(s[i2 + escape(t2).len()] == '"');
        lemma_scan_complete(s, i2, t2);
        let j_end = i2 + escape(t2).len() + 1;
        assert(s[i + 0] == escape(t)[0]);
        if c == '"' {
            assert(ec == seq!['\\', '"']);
            assert(escape(t)[0] == ec[0]);
            assert(s[i] == '\\');
            assert(s[i + 1] == escape(t)[1]);
            assert(s[i + 1] == '"');
            assert(is_escape_code(s[i + 1]));
            assert(unescape_char(s[i + 1]) == '"');
            assert(sp_scan(s, i) == Option::Some((seq![unescape_char(s[i + 1])] + t2, j_end)));
            assert(seq![c] + t2 =~= t);
            assert(sp_scan(s, i) == Option::Some((t, i + el + 1)));
        } else if c == '\\' {
            assert(ec == seq!['\\', '\\']);
            assert(escape(t)[0] == ec[0]);
            assert(s[i] == '\\');
            assert(s[i + 1] == escape(t)[1]);
            assert(s[i + 1] == '\\');
            assert(is_escape_code(s[i + 1]));
            assert(unescape_char(s[i + 1]) == '\\');
            assert(sp_scan(s, i) == Option::Some((seq![unescape_char(s[i + 1])] + t2, j_end)));
            assert(seq![c] + t2 =~= t);
            assert(sp_scan(s, i) == Option::Some((t, i + el + 1)));
        } else {
            assert(ec == seq![c]);
            assert(escape(t)[0] == ec[0]);
            assert(s[i] == c);
            assert(sp_scan(s, i) == Option::Some((seq![s[i]] + t2, j_end)));
            assert(seq![c] + t2 =~= t);
            assert(sp_scan(s, i) == Option::Some((t, i + el + 1)));
        }
    }
}

proof fn lemma_opt_complete(s: Seq<char>, i: int, o: Option<Seq<char>>)
    requires
        0 <= i,
        i + encode_opt(o).len() <= s.len(),
        s.subrange(i, i + encode_opt(o).len()) == encode_opt(o),
    ensures
        sp_opt(s, i) == Option::Some((o, i + encode_opt(o).len())),
{
    reveal_strlit("null");
    let eo = encode_opt(o);
    assert forall|j: int| 0 <= j < eo.len() implies s[i + j] == eo[j] by {
        assert(eo[j] == s.subrange(i, i + eo.len())[j]);
    }
    match o {
        Option::None => {
            assert(eo == "null"@);
            assert("null"@.len() == 4);
            assert(s.subrange(i, i + 4) =~= "null"@) by {
                assert forall|j: int| 0 <= j < 4 implies s.subrange(i, i + 4)[j] == "null"@[j] by {
                    assert(s.subrange(i, i + 4)[j] == s[i + j]);
                }
            }
            assert(has_prefix(s, i, "null"@));
        },
        Option::Some(t) => {
            let et = escape(t);
            assert(eo == seq!['"'] + et + seq!['"']);
            assert(eo.len() == et.len() + 2);
            assert(s[i + 0] == eo[0]);
            assert(eo[0] == '"');
            if has_prefix(s, i, "null"@) {
                assert(s.subrange(i, i + 4)[0] == 'n');
                assert(s[i + 0] == 'n');
                assert(false);
            }
            assert(s.subrange(i + 1, i + 1 + et.len()) =~= et) by {
                assert forall|j: int|
                    0 <= j < et.len() implies s.subrange(i + 1, i + 1 + et.len())[j] == et[j] by {
                    assert(s.subrange(i + 1, i + 1 + et.len())[j] == s[i + 1 + j]);
                    assert(eo[1 + j] == et[j]);
                }
            }
            assert(s[i + 1 + et.len()] == eo[1 + et.len() as int]);
            assert(eo[1 + et.len() as int] == '"');
            lemma_scan_complete(s, i + 1, t);
        },
    }
}

proof fn lemma_item_len(a: AddrModel)
    ensures
        encode_item(a).len() == 23 + escape(a.name).len() + encode_opt(a.v4).len() + encode_opt(
            a.v6,
        ).len(),
        encode_item(a).len() >= 23,
{
    reveal_strlit("{\"name\":\"");
    reveal_strlit("\",\"v4\":");
    reveal_strlit(",\"v6\":");
    reveal_strlit("}");
}

#[verifier::rlimit(100)]
proof fn lemma_item_complete(s: Seq<char>, i: int, a: AddrModel)
    requires
        0 <= i,
        i + encode_item(a).len() <= s.len(),
        s.subrange(i, i + encode_item(a).len()) == encode_item(a),
    ensures
        sp_item(s, i) == Option::Some((a, i + encode_item(a).len())),
{
    reveal_strlit("{\"name\":\"");
    reveal_strlit("\",\"v4\":");
    reveal_strlit(",\"v4\":");
    reveal_strlit(",\"v6\":");
    reveal_strlit("}");
    let e = encode_item(a);
    let pre = "{\"name\":\""@;
    let m4l = "\",\"v4\":"@;
    let m4 = ",\"v4\":"@;
    let m6 = ",\"v6\":"@;
    assert(pre.len() == 9);
    assert(m4l.len() == 7);
    assert(m4.len() == 6);
    assert(m6.len() == 6);
    let en = escape(a.name);
    let e4 = encode_opt(a.v4);
    let e6 = encode_opt(a.v6);
    let enl = en.len() as int;
    let e4l = e4.len() as int;
    let e6l = e6.len() as int;
    assert(e == pre + en + m4l + e4 + m6 + e6 + "}"@);
    assert("}"@.len() == 1);
    assert(e.len() == 23 + enl + e4l + e6l);
    assert forall|j: int| 0 <= j < e.len() implies s[i + j] == e[j] by {
        assert(e[j] == s.subrange(i, i + e.len())[j]);
    }
    assert(s.subrange(i, i + 9) =~= pre) by {
        assert forall|j: int| 0 <= j < 9 implies s.subrange(i, i + 9)[j] == pre[j] by {
            assert(s.subrange(i, i + 9)[j] == s[i + j]);
            assert(e[j] == pre[j]);
        }
    }
    assert(has_prefix(s, i, pre));
    assert(s.subrange(i + 9, i + 9 + enl) =~= en) by {
        assert forall|j: int|
            0 <= j < enl implies s.subrange(i + 9, i + 9 + enl)[j] == en[j] by {
            assert(s.subrange(i + 9, i + 9 + enl)[j] == s[i + 9 + j]);
            assert(e[9 + j] == en[j]);
        }
    }
    assert(s[i + 9 + enl] == e[9 + enl]);
    assert(e[9 + enl] == m4l[0]);
    assert(m4l[0] == '"');
    lemma_scan_complete(s, i + 9, a.name);
    let j1 = i + 9 + enl + 1;
    assert(sp_scan(s, i + 9) == Option::Some((a.name, j1)));
    assert(m4l.skip(1) =~= m4);
    assert(s.subrange(j1, j1 + 6) =~= m4) by {
        assert forall|j: int| 0 <= j < 6 implies s.subrange(j1, j1 + 6)[j] == m4[j] by {
            assert(s.subrange(j1, j1 + 6)[j] == s[j1 + j]);
            assert(e[10 + enl + j] == m4l[1 + j]);
            assert(m4l[1 + j] == m4[j]);
        }
    }
    assert(has_prefix(s, j1, m4));
    let j2 = j1 + 6;
    assert(s.subrange(j2, j2 + e4l) =~= e4) by {
        assert forall|j: int|
            0 <= j < e4l implies s.subrange(j2, j2 + e4l)[j] == e4[j] by {
            assert(s.subrange(j2, j2 + e4l)[j] == s[j2 + j]);
            assert(e[16 + enl + j] == e4[j]);
        }
    }
    lemma_opt_complete(s, j2, a.v4);
    let j3 = j2 + e4l;
    assert(s.subrange(j3, j3 + 6) =~= m6) by {
        assert forall|j: int| 0 <= j < 6 implies s.subrange(j3, j3 + 6)[j] == m6[j] by {
            assert(s.subrange(j3, j3 + 6)[j] == s[j3 + j]);
            assert(e[16 + enl + e4l + j] == m6[j]);
        }
    }
    assert(has_prefix(s, j3, m6));
    let j4 = j3 + 6;
    assert(s.subrange(j4, j4 + e6l) =~= e6) by {
        assert forall|j: int|
            0 <= j < e6l implies s.subrange(j4, j4 + e6l)[j] == e6[j] by {
            assert(s.subrange(j4, j4 + e6l)[j] == s[j4 + j]);
            assert(e[22 + enl + e4l + j] == e6[j]);
        }
    }
    lemma_opt_complete(s, j4, a.v6);
    let j5 = j4 + e6l;
    assert(s[j5] == e[22 + enl + e4l + e6l]);
    assert(e[22 + enl + e4l + e6l] == '}');
    assert((AddrModel { name: a.name, v4: a.v4, v6: a.v6 }) == a);
    assert(sp_item(s, i) == Option::Some((a, j5 + 1)));
}

proof fn lemma_items_tail_complete(s: Seq<char>, i: int, items: Seq<AddrModel>)
    requires
        0 <= i,
        i + encode_items_tail(items).len() < s.len(),
        s.subrange(i, i + encode_items_tail(items).len()) == encode_items_tail(items),
        s[i + encode_items_tail(items).len()] == ']',
    ensures
        sp_items_tail(s, i) == Option::Some((items, i + encode_items_tail(items).len() + 1)),
    decreases items.len(),
{
    let el = encode_items_tail(items);
    assert forall|j: int| 0 <= j < el.len() implies s[i + j] == el[j] by {
        assert(el[j] == s.subrange(i, i + el.len())[j]);
    }
    if items.len() == 0 {
        assert(el.len() == 0);
        assert(s[i] == ']');
    } else {
        let a = items[0];
        let rest = items.skip(1);
        let ei = encode_item(a);
        let er = encode_items_tail(rest);
        assert(el == seq![','] + ei + er);
        assert(s[i + 0] == el[0]);
        assert(el[0] == ',');
        assert(s[i] == ',');
        assert(s[i] != ']');
        assert(s.subrange(i + 1, i + 1 + ei.len()) =~= ei) by {
            assert forall|j: int|
                0 <= j < ei.len() implies s.subrange(i + 1, i + 1 + ei.len())[j] == ei[j] by {
                assert(s.subrange(i + 1, i + 1 + ei.len())[j] == s[i + 1 + j]);
                assert(el[1 + j] == ei[j]);
            }
        }
        lemma_item_len(a);
        lemma_item_complete(s, i + 1, a);
        let j = i + 1 + ei.len();
        assert(s.subrange(j, j + er.len()) =~= er) by {
            assert forall|j2: int|
                0 <= j2 < er.len() implies s.subrange(j, j + er.len())[j2] == er[j2] by {
                assert(s.subrange(j, j + er.len())[j2] == s[j + j2]);
                assert(el[1 + ei.len() + j2] == er[j2]);
            }
        }
        assert(s[j + er.len()] == ']');
        lemma_items_tail_complete(s, j, rest);
        assert(seq![a] + rest =~= items);
        assert(sp_items_tail(s, i) == Option::Some((items, i + el.len() + 1)));
    }
}

proof fn lemma_items_complete(s: Seq<char>, i: int, items: Seq<AddrModel>)
    requires
        0 <= i,
        i + encode_items(items).len() < s.len(),
        s.subrange(i, i + encode_items(items).len()) == encode_items(items),
        s[i + encode_items(items).len()] == ']',
    ensures
        sp_items(s, i) == Option::Some((items, i + encode_items(items).len() + 1)),
{
    reveal_strlit("{\"name\":\"");
    let el = encode_items(items);
    assert forall|j: int| 0 <= j < el.len() implies s[i + j] == el[j] by {
        assert(el[j] == s.subrange(i, i + el.len())[j]);
    }
    if items.len() == 0 {
        assert(el.len() == 0);
        assert(s[i] == ']');
    } else {
        let a = items[0];
        let rest = items.skip(1);
        let ei = encode_item(a);
        let er = encode_items_tail(rest);
        assert(el == ei + er);
        lemma_item_len(a);
        assert(s[i + 0] == el[0]);
        assert(el[0] == ei[0]);
        assert(ei[0] == "{\"name\":\""@[0]);
        assert(s[i] == '{');
        assert(s[i] != ']');
        assert(s.subrange(i, i + ei.len()) =~= ei) by {
            assert forall|j: int|
                0 <= j < ei.len() implies s.subrange(i, i + ei.len())[j] == ei[j] by {
                assert(s.subrange(i, i + ei.len())[j] == s[i + j]);
                assert(el[j] == ei[j]);
            }
        }
        lemma_item_complete(s, i, a);
        let j = i + ei.len();
        assert(s.subrange(j, j + er.len()) =~= er) by {
            assert forall|j2: int|
                0 <= j2 < er.len() implies s.subrange(j, j + er.len())[j2] == er[j2] by {
                assert(s.subrange(j, j + er.len())[j2] == s[j + j2]);
                assert(el[ei.len() + j2] == er[j2]);
            }
        }
        assert(s[j + er.len()] == ']');
        lemma_items_tail_complete(s, j, rest);
        assert(seq![a] + rest =~= items);
        assert(sp_items(s, i) == Option::Some((items, i + el.len() + 1)));
    }
}

proof fn lemma_uuid_seq_len(id: u128)
    ensures
        uuid_seq(id).len() == 36,
{
    let n = id as int;
    lemma_hex_digits_len(n / p16(24), 8);
    lemma_hex_digits_len(n / p16(20) % p16(4), 4);
    lemma_hex_digits_len(n / p16(16) % p16(4), 4);
    lemma_hex_digits_len(n / p16(12) % p16(4), 4);
    lemma_hex_digits_len(n % p16(12), 12);
}

#[verifier::rlimit(100)]
proof fn lemma_message_complete(m: MessageModel)
    ensures
        sp_message(spec_encode(m)) == Option::Some(m),
{
    let s = spec_encode(m);
    let la = "\"Acknowledge\""@;
    let lb = "\"AddrRequest\""@;
    let est = "{\"Establish\":{\"id\":\""@;
    let err = "{\"Error\":{\"message\":\""@;
    let resp = "{\"AddrResponse\":{\"adapter_addresses\":["@;
    reveal_strlit("\"Acknowledge\"");
    reveal_strlit("\"AddrRequest\"");
    reveal_strlit("{\"Establish\":{\"id\":\"");
    reveal_strlit("{\"Error\":{\"message\":\"");
    reveal_strlit("{\"AddrResponse\":{\"adapter_addresses\":[");
    reveal_strlit("\",\"password\":\"");
    reveal_strlit("\"}}");
    reveal_strlit("]}}");
    assert(la.len() == 13);
    assert(lb.len() == 13);
    assert(est.len() == 20);
    assert(err.len() == 21);
    assert(resp.len() == 38);
    match m {
        MessageModel::Acknowledge => {
            assert(s == la);
        },
        MessageModel::AddrRequest => {
            assert(s == lb);
            if s == la {
                assert(la[2] == lb[2]);
                assert(false);
            }
        },
        MessageModel::Establish { id, password } => {
            let mid = "\",\"password\":\""@;
            let tail = "\"}}"@;
            assert(mid.len() == 14);
            assert(tail.len() == 3);
            let ep = escape(password);
            let epl = ep.len() as int;
            assert(s == est + uuid_seq(id) + mid + ep + tail);
            lemma_uuid_seq_len(id);
            assert(s.len() == 73 + epl);
            assert(s[0] == est[0]);
            assert(est[0] == '{');
            if s == la {
                assert(s[0] == la[0]);
                assert(false);
            }
            if s == lb {
                assert(s[0] == lb[0]);
                assert(false);
            }
            assert(s.subrange(0, 20) =~= est) by {
                assert forall|j: int| 0 <= j < 20 implies s.subrange(0, 20)[j] == est[j] by {
                    assert(s.subrange(0, 20)[j] == s[j]);
                }
            }
            assert(has_prefix(s, 0, est));
            assert(s.subrange(20, 56) =~= uuid_seq(id)) by {
                assert forall|j: int|
                    0 <= j < 36 implies s.subrange(20, 56)[j] == uuid_seq(id)[j] by {
                    assert(s.subrange(20, 56)[j] == s[20 + j]);
                }
            }
            lemma_uuid_complete(s, 20, id);
            assert(s.subrange(56, 70) =~= mid) by {
                assert forall|j: int| 0 <= j < 14 implies s.subrange(56, 70)[j] == mid[j] by {
                    assert(s.subrange(56, 70)[j] == s[56 + j]);
                }
            }
            assert(has_prefix(s, 56, mid));
            assert(s.subrange(70, 70 + epl) =~= ep) by {
                assert forall|j: int|
                    0 <= j < epl implies s.subrange(70, 70 + epl)[j] == ep[j] by {
                    assert(s.subrange(70, 70 + epl)[j] == s[70 + j]);
                }
            }
            assert(s[70 + epl] == tail[0]);
            assert(tail[0] == '"');
            lemma_scan_complete(s, 70, password);
            let j: int = 70 + epl + 1;
            assert(s[j] == tail[1]);
            assert(s[j + 1] == tail[2]);
            assert(tail[1] == '}' && tail[2] == '}');
            assert(j + 2 == s.len());
            assert(sp_message(s) == Option::Some(m));
        },
        MessageModel::Error { message } => {
            let epre = err;
            let tail = "\"}}"@;
            assert(tail.len() == 3);
            let ep = escape(message);
            let epl = ep.len() as int;
            assert(s == epre + ep + tail);
            assert(s.len() == 24 + epl);
            assert(s[0] == epre[0]);
            assert(epre[0] == '{');
            if s == la {
                assert(s[0] == la[0]);
                assert(false);
            }
            if s == lb {
                assert(s[0] == lb[0]);
                assert(false);
            }
            if has_prefix(s, 0, est) {
                assert(s.subrange(0, 20)[3] == est[3]);
                assert(s[3] == est[3]);
                assert(s[3] == epre[3]);
                assert(est[3] == 's' && epre[3] == 'r');
                assert(false);
            }
            assert(s.subrange(0, 21) =~= epre) by {
                assert forall|j: int| 0 <= j < 21 implies s.subrange(0, 21)[j] == epre[j] by {
                    assert(s.subrange(0, 21)[j] == s[j]);
                }
            }
            assert(has_prefix(s, 0, epre));
            assert(s.subrange(21, 21 + epl) =~= ep) by {
                assert forall|j: int|
                    0 <= j < epl implies s.subrange(21, 21 + epl)[j] == ep[j] by {
                    assert(s.subrange(21, 21 + epl)[j] == s[21 + j]);
                }
            }
            assert(s[21 + epl] == tail[0]);
            assert(tail[0] == '"');
            lemma_scan_complete(s, 21, message);
            let j: int = 21 + epl + 1;
            assert(s[j] == tail[1]);
            assert(s[j + 1] == tail[2]);
            assert(tail[1] == '}' && tail[2] == '}');
            assert(j + 2 == s.len());
            assert(sp_message(s) == Option::Some(m));
        },
        MessageModel::AddrResponse { adapter_addresses } => {
            let items = adapter_addresses;
            let tail = "]}}"@;
            assert(tail.len() == 3);
            let el = encode_items(items);
            let ell = el.len() as int;
            assert(s == resp + el + tail);
            assert(s.len() == 41 + ell);
            assert(s[0] == resp[0]);
            assert(resp[0] == '{');
            if s == la {
                assert(s[0] == la[0]);
                assert(false);
            }
            if s == lb {
                assert(s[0] == lb[0]);
                assert(false);
            }
            if has_prefix(s, 0, est) {
                assert(s.subrange(0, 20)[2] == est[2]);
                assert(s[2] == est[2]);
                assert(s[2] == resp[2]);
                assert(est[2] == 'E' && resp[2] == 'A');
                assert(false);
            }
            if has_prefix(s, 0, err) {
                assert(s.subrange(0, 21)[2] == err[2]);
                assert(s[2] == err[2]);
                assert(s[2] == resp[2]);
                assert(err[2] == 'E' && resp[2] == 'A');
                assert(false);
            }
            assert(s.subrange(0, 38) =~= resp) by {
                assert forall|j: int| 0 <= j < 38 implies s.subrange(0, 38)[j] == resp[j] by {
                    assert(s.subrange(0, 38)[j] == s[j]);
                }
            }
            assert(has_prefix(s, 0, resp));
            assert(s.subrange(38, 38 + ell) =~= el) by {
                assert forall|j: int|
                    0 <= j < ell implies s.subrange(38, 38 + ell)[j] == el[j] by {
                    assert(s.subrange(38, 38 + ell)[j] == s[38 + j]);
                }
            }
            assert(s[38 + ell] == tail[0]);
            assert(tail[0] == ']');
            lemma_items_complete(s, 38, items);
            let j: int = 38 + ell + 1;
            assert(s[j] == tail[1]);
            assert(s[j + 1] == tail[2]);
            assert(tail[1] == '}' && tail[2] == '}');
            assert(j + 2 == s.len());
            assert(sp_message(s) == Option::Some(m));
        },
    }
}

/// Whether a message is in decoded form: a response's records carry unique
/// interface names; every other variant is always in decoded form.
pub open spec fn wf_message(m: MessageModel) -> bool {
    match m {
        MessageModel::AddrResponse { adapter_addresses } => unique_names(adapter_addresses),
        _ => true,
    }
}

/// A message's canonical wire form always decodes, to the message with its
/// response records collapsed per interface name.
pub proof fn lemma_decode_encode(m: MessageModel)
    ensures
        spec_decode(spec_encode(m)) == Option::Some(norm_message(m)),
{
    lemma_message_complete(m);
}

/// Round trip: encoding any message whose response records carry unique
/// interface names and decoding the result yields an equal message — for
/// every variant and every field value, empty strings, empty record lists
/// and non-ASCII text included.
pub proof fn lemma_round_trip(m: MessageModel)
    requires
        wf_message(m),
    ensures
        spec_decode(spec_encode(m)) == Option::Some(m),
{
    lemma_message_complete(m);
    match m {
        MessageModel::AddrResponse { adapter_addresses } => {
            crate::message::lemma_merged_identity(adapter_addresses);
        },
        _ => {},
    }
}

} // verus!

