use crate::signature::{Signature, SigView};
use vstd::prelude::*;

verus! {

/// A decimal digit as a character.
pub open spec fn dec_digit(d: int) -> char
    recommends
        0 <= d < 10,
{
    ((48 + d) as u8) as char
}

/// Decimal notation of a natural number, most significant digit first, no
/// leading zeros; zero is "0".
pub open spec fn dec_nat(n: nat) -> Seq<char>
    decreases n,
{
    if n < 10 {
        seq![dec_digit(n as int)]
    } else {
        dec_nat(n / 10).push(dec_digit((n % 10) as int))
    }
}

/// Decimal notation of an integer: a leading minus sign when negative.
pub open spec fn dec_int(i: int) -> Seq<char> {
    if i < 0 {
        seq!['-'] + dec_nat((-i) as nat)
    } else {
        dec_nat(i as nat)
    }
}

/// A hexadecimal digit as a lowercase character.
pub open spec fn hex_digit(d: int) -> char
    recommends
        0 <= d < 16,
{
    if d < 10 {
        ((48 + d) as u8) as char
    } else {
        ((87 + d) as u8) as char
    }
}

/// How one character appears inside a JSON string: quote and backslash are
/// escaped, the named control characters use their short escapes, any other
/// control character a four-digit one, and everything else stands as it is.
pub open spec fn escape_char(c: char) -> Seq<char> {
    if c == '"' {
        seq!['\\', '"']
    } else if c == '\\' {
        seq!['\\', '\\']
    } else if c as u32 == 8 {
        seq!['\\', 'b']
    } else if c as u32 == 9 {
        seq!['\\', 't']
    } else if c as u32 == 10 {
        seq!['\\', 'n']
    } else if c as u32 == 12 {
        seq!['\\', 'f']
    } else if c as u32 == 13 {
        seq!['\\', 'r']
    } else if (c as u32) < 32 {
        seq![
            '\\',
            'u',
            '0',
            '0',
            hex_digit(((c as u32) / 16) as int),
            hex_digit(((c as u32) % 16) as int),
        ]
    } else {
        seq![c]
    }
}

/// A whole string as it appears inside JSON quotes.
pub open spec fn escape(s: Seq<char>) -> Seq<char>
    decreases s.len(),
{
    if s.len() == 0 {
        Seq::empty()
    } else {
        escape_char(s[0]) + escape(s.drop_first())
    }
}

/// Escaping a concatenation escapes the parts.
pub proof fn lemma_escape_append(a: Seq<char>, b: Seq<char>)
    ensures
        escape(a + b) == escape(a) + escape(b),
    decreases a.len(),
{
    if a.len() == 0 {
        assert(a + b =~= b);
        assert(escape(a) + escape(b) =~= escape(b));
    } else {
        assert((a + b)[0] == a[0]);
        assert((a + b).drop_first() =~= a.drop_first() + b);
        lemma_escape_append(a.drop_first(), b);
        assert(escape(a + b) =~= escape(a) + escape(b));
    }
}

/// The JSON form of one signature: an object with the variant as its one
/// key and the name or identifier as its value.
pub open spec fn sig_json(s: SigView) -> Seq<char> {
    match s {
        SigView::Named(n) => "{\"Named\":\""@ + escape(n) + "\"}"@,
        SigView::Anonymous(d) => "{\"Anonymous\":\""@ + escape(d) + "\"}"@,
    }
}

/// The JSON form of one reported device: its signature and signal strength.
pub open spec fn device_json(sig: SigView, rssi: int) -> Seq<char> {
    "{\"signature\":"@ + sig_json(sig) + ",\"rssi\":"@ + dec_int(rssi) + "}"@
}

/// The JSON form of a device list: comma separated, no trailing comma.
pub open spec fn devices_json(ds: Seq<(SigView, int)>) -> Seq<char>
    decreases ds.len(),
{
    if ds.len() == 0 {
        Seq::empty()
    } else if ds.len() == 1 {
        device_json(ds[0].0, ds[0].1)
    } else {
        device_json(ds[0].0, ds[0].1) + ","@ + devices_json(ds.drop_first())
    }
}

/// Appending one device to a list appends its object, a comma first when
/// the list was not empty.
pub proof fn lemma_devices_json_push(ds: Seq<(SigView, int)>, p: (SigView, int))
    ensures
        devices_json(ds.push(p)) == if ds.len() == 0 {
            device_json(p.0, p.1)
        } else {
            devices_json(ds) + ","@ + device_json(p.0, p.1)
        },
    decreases ds.len(),
{
    let e = ds.push(p);
    if ds.len() == 0 {
        assert(e.len() == 1);
        assert(e[0] == p);
    } else {
        assert(e[0] == ds[0]);
        assert(e.drop_first() =~= ds.drop_first().push(p));
        lemma_devices_json_push(ds.drop_first(), p);
        assert(devices_json(e) =~= devices_json(ds) + ","@ + device_json(p.0, p.1));
    }
}

/// The compact transport form: the sequence number, the total device count,
/// and at most a fixed cap of devices. The count may exceed the number of
/// devices listed.
pub open spec fn compact_json(seq_no: int, count: int, ds: Seq<(SigView, int)>) -> Seq<char> {
    "{\"seq\":"@ + dec_int(seq_no) + ",\"count\":"@ + dec_int(count) + ",\"devices\":["@
        + devices_json(ds) + "]}"@
}

/// The mathematical value of a reported device list: each entry's
/// signature and signal strength.
pub open spec fn sig_pairs(s: Seq<(Signature, i32)>) -> Seq<(SigView, int)> {
    s.map_values(|p: (Signature, i32)| (p.0@, p.1 as int))
}

/// The error a failed compact-form serialization would report. The verified
/// renderer is total, so no code path constructs one, but callers keep the
/// recoverable shape: on failure they would retain the last-known-good form.
#[derive(Debug, Clone, Copy, PartialEq, Eq, Structural)]
pub struct CompactFormError;

/// Relies on String::push: appends one character.
#[verifier::external_body]
pub(crate) fn push_char(s: &mut String, c: char)
    ensures
        final(s)@ == old(s)@.push(c),
{
    s.push(c)
}

/// The decimal rendering of a natural number.
pub(crate) fn nat_to_string(n: u64) -> (r: String)
    ensures
        r@ == dec_nat(n as nat),
{
    let mut digits: Vec<char> = Vec::new();
    let mut m: u64 = n;
    while m > 0
        invariant
            m > 0 ==> dec_nat(n as nat) =~= dec_nat(m as nat) + digits@.reverse(),
            m == 0 ==> (n > 0 ==> dec_nat(n as nat) =~= digits@.reverse()),
            m <= n,
        decreases m,
    {
        let d = m % 10;
        let c = ((48 + d) as u8) as char;
        proof {
            assert(c == dec_digit(d as int));
        }
        let ghost before = digits@;
        digits.push(c);
        proof {
            assert(digits@.reverse() =~= seq![c] + before.reverse());
            if m >= 10 {
                assert(dec_nat(m as nat) =~= dec_nat((m as nat) / 10) + seq![c]);
                assert(dec_nat((m as nat) / 10) + (seq![c] + before.reverse()) =~= (dec_nat(
                    (m as nat) / 10,
                ) + seq![c]) + before.reverse());
            } else {
                assert(dec_nat(m as nat) =~= seq![c]);
            }
            assert((m as nat) / 10 == (m / 10) as nat);
        }
        m = m / 10;
    }
    let mut r = String::new();
    if n == 0 {
        push_char(&mut r, '0');
        proof {
            assert(r@ =~= dec_nat(0));
        }
        return r;
    }
    let mut t: usize = digits.len();
    while t > 0
        invariant
            t <= digits@.len(),
            dec_nat(n as nat) =~= digits@.reverse(),
            r@ =~= digits@.reverse().take(digits@.len() - t),
        decreases t,
    {
        push_char(&mut r, digits[t - 1]);
        proof {
            let rev = digits@.reverse();
            assert(rev[digits@.len() - t] == digits@[t - 1]);
            assert(rev.take(digits@.len() - (t - 1)) =~= rev.take(digits@.len() - t).push(
                rev[digits@.len() - t],
            ));
        }
        t = t - 1;
    }
    proof {
        assert(digits@.reverse().take(digits@.len() as int) =~= digits@.reverse());
    }
    r
}

/// The decimal rendering of a signal strength.
pub(crate) fn i32_to_string(i: i32) -> (r: String)
    ensures
        r@ == dec_int(i as int),
{
    if i < 0 {
        let mut r = String::from_str("-");
        let mag: u64 = (-(i as i64)) as u64;
        let s = nat_to_string(mag);
        r.append(s.as_str());
        proof {
            reveal_strlit("-");
            assert("-"@ =~= seq!['-']);
            assert(r@ =~= dec_int(i as int));
        }
        r
    } else {
        nat_to_string(i as u64)
    }
}

/// Appends a string's characters in their escaped JSON form.
fn append_escaped(out: &mut String, s: &str)
    ensures
        final(out)@ == old(out)@ + escape(s@),
{
    let n = s.unicode_len();
    let mut i: usize = 0;
    while i < n
        invariant
            i <= n,
            n == s@.len(),
            out@ == old(out)@ + escape(s@.take(i as int)),
        decreases n - i,
    {
        let c = s.get_char(i);
        let u = c as u32;
        if c == '"' {
            push_char(out, '\\');
            push_char(out, '"');
        } else if c == '\\' {
            push_char(out, '\\');
            push_char(out, '\\');
        } else if u == 8 {
            push_char(out, '\\');
            push_char(out, 'b');
        } else if u == 9 {
            push_char(out, '\\');
            push_char(out, 't');
        } else if u == 10 {
            push_char(out, '\\');
            push_char(out, 'n');
        } else if u == 12 {
            push_char(out, '\\');
            push_char(out, 'f');
        } else if u == 13 {
            push_char(out, '\\');
            push_char(out, 'r');
        } else if u < 32 {
            push_char(out, '\\');
            push_char(out, 'u');
            push_char(out, '0');
            push_char(out, '0');
            let hi = u / 16;
            let lo = u % 16;
            let hc = if hi < 10 {
                ((48 + hi) as u8) as char
            } else {
                ((87 + hi) as u8) as char
            };
            let lc = if lo < 10 {
                ((48 + lo) as u8) as char
            } else {
                ((87 + lo) as u8) as char
            };
            proof {
                assert(hc == hex_digit(hi as int));
                assert(lc == hex_digit(lo as int));
            }
            push_char(out, hc);
            push_char(out, lc);
        } else {
            push_char(out, c);
        }
        proof {
            assert(s@.take(i + 1) =~= s@.take(i as int) + seq![s@[i as int]]);
            lemma_escape_append(s@.take(i as int), seq![s@[i as int]]);
            assert(seq![s@[i as int]].drop_first() =~= Seq::<char>::empty());
            assert(escape(seq![s@[i as int]].drop_first()) =~= Seq::<char>::empty());
            assert(escape(seq![s@[i as int]]) =~= escape_char(s@[i as int]));
            assert(out@ =~= old(out)@ + escape(s@.take(i + 1)));
        }
        i = i + 1;
    }
    proof {
        assert(s@.take(n as int) =~= s@);
    }
}

/// Appends the JSON object form of one signature.
pub(crate) fn append_sig_json(out: &mut String, sig: &Signature)
    ensures
        final(out)@ == old(out)@ + sig_json(sig@),
{
    match sig {
        Signature::Named(n) => {
            out.append("{\"Named\":\"");
            append_escaped(out, n.as_str());
            out.append("\"}");
            proof {
                assert(out@ =~= old(out)@ + sig_json(sig@));
            }
        },
        Signature::Anonymous(d) => {
            out.append("{\"Anonymous\":\"");
            append_escaped(out, d.as_str());
            out.append("\"}");
            proof {
                assert(out@ =~= old(out)@ + sig_json(sig@));
            }
        },
    }
}

/// Renders the compact transport form of a device report.
#[verifier::rlimit(40)]
pub fn render_compact(seq_no: u32, count: usize, devices: &Vec<(Signature, i32)>) -> (r: String)
    ensures
        r@ == compact_json(seq_no as int, count as int, sig_pairs(devices@)),
{
    let ghost pairs = sig_pairs(devices@);
    let mut out = String::from_str("{\"seq\":");
    let s = nat_to_string(seq_no as u64);
    out.append(s.as_str());
    out.append(",\"count\":");
    let c = nat_to_string(count as u64);
    out.append(c.as_str());
    out.append(",\"devices\":[");
    let ghost head = out@;
    let mut i: usize = 0;
    while i < devices.len()
        invariant
            i <= devices@.len(),
            pairs == sig_pairs(devices@),
            pairs.len() == devices@.len(),
            out@ == head + devices_json(pairs.take(i as int)),
        decreases devices@.len() - i,
    {
        if i > 0 {
            out.append(",");
        }
        out.append("{\"signature\":");
        append_sig_json(&mut out, &devices[i].0);
        out.append(",\"rssi\":");
        let rs = i32_to_string(devices[i].1);
        out.append(rs.as_str());
        out.append("}");
        proof {
            assert(pairs[i as int] == (devices@[i as int].0@, devices@[i as int].1 as int));
            lemma_devices_json_push(pairs.take(i as int), pairs[i as int]);
            assert(pairs.take(i + 1) =~= pairs.take(i as int).push(pairs[i as int]));
            if i > 0 {
                assert(out@ =~= head + (devices_json(pairs.take(i as int)) + ","@
                    + device_json(pairs[i as int].0, pairs[i as int].1)));
            } else {
                assert(devices_json(pairs.take(0)).len() == 0);
                assert(out@ =~= head + device_json(pairs[i as int].0, pairs[i as int].1));
            }
            assert(out@ =~= head + devices_json(pairs.take(i + 1)));
        }
        i = i + 1;
    }
    out.append("]}");
    proof {
        assert(pairs.take(pairs.len() as int) =~= pairs);
        assert(out@ =~= compact_json(seq_no as int, count as int, pairs));
    }
    out
}

} // verus!

verus! {

/// A decimal digit character.
pub open spec fn is_dec_digit(c: char) -> bool {
    48 <= c as u32 <= 57
}

/// The value of a decimal digit character.
pub open spec fn digit_val(c: char) -> int {
    c as u32 - 48
}

/// How many decimal digits the text starts with.
pub open spec fn digit_span(s: Seq<char>) -> int
    decreases s.len(),
{
    if s.len() == 0 || !is_dec_digit(s[0]) {
        0
    } else {
        1 + digit_span(s.drop_first())
    }
}

/// The number a digit string denotes.
pub open spec fn digits_val(s: Seq<char>) -> int
    decreases s.len(),
{
    if s.len() == 0 {
        0
    } else {
        digits_val(s.drop_last()) * 10 + digit_val(s.last())
    }
}

/// Consume an exact literal, or fail.
pub open spec fn sp_lit(s: Seq<char>, lit: Seq<char>) -> Option<Seq<char>> {
    if lit.len() <= s.len() && s.take(lit.len() as int) == lit {
        Option::Some(s.skip(lit.len() as int))
    } else {
        Option::None
    }
}

/// Consume a number: one or more digits whose value fits the transport's
/// 64-bit bound.
pub open spec fn sp_nat(s: Seq<char>) -> Option<(int, Seq<char>)> {
    let k = digit_span(s);
    if k == 0 {
        Option::None
    } else if digits_val(s.take(k)) > u64::MAX {
        Option::None
    } else {
        Option::Some((digits_val(s.take(k)), s.skip(k)))
    }
}

/// Consume a possibly negative number.
pub open spec fn sp_int(s: Seq<char>) -> Option<(int, Seq<char>)> {
    if s.len() > 0 && s[0] == '-' {
        match sp_nat(s.drop_first()) {
            Option::Some((n, r)) => Option::Some((-n, r)),
            Option::None => Option::None,
        }
    } else {
        sp_nat(s)
    }
}

/// A lowercase hexadecimal digit character.
pub open spec fn is_hex_digit(c: char) -> bool {
    48 <= c as u32 <= 57 || 97 <= c as u32 <= 102
}

/// The value of a lowercase hexadecimal digit character.
pub open spec fn hex_val(c: char) -> int {
    if 48 <= c as u32 <= 57 {
        c as u32 - 48
    } else {
        c as u32 - 87
    }
}

/// Consume a JSON string body up to and including the closing quote,
/// undoing the escapes the encoder can produce.
pub open spec fn sp_string_body(s: Seq<char>) -> Option<(Seq<char>, Seq<char>)>
    decreases s.len(),
{
    if s.len() == 0 {
        Option::None
    } else if s[0] == '"' {
        Option::Some((Seq::empty(), s.drop_first()))
    } else if s[0] == '\\' {
        if s.len() < 2 {
            Option::None
        } else {
            let e = s[1];
            if e == '"' || e == '\\' {
                match sp_string_body(s.skip(2)) {
                    Option::Some((t, r)) => Option::Some((seq![e] + t, r)),
                    Option::None => Option::None,
                }
            } else if e == 'b' || e == 't' || e == 'n' || e == 'f' || e == 'r' {
                let c = if e == 'b' {
                    ((8 as u8) as char)
                } else if e == 't' {
                    ((9 as u8) as char)
                } else if e == 'n' {
                    ((10 as u8) as char)
                } else if e == 'f' {
                    ((12 as u8) as char)
                } else {
                    ((13 as u8) as char)
                };
                match sp_string_body(s.skip(2)) {
                    Option::Some((t, r)) => Option::Some((seq![c] + t, r)),
                    Option::None => Option::None,
                }
            } else if e == 'u' {
                if s.len() < 6 || s[2] != '0' || s[3] != '0' || !is_hex_digit(s[4])
                    || !is_hex_digit(s[5]) {
                    Option::None
                } else {
                    let c = (((hex_val(s[4]) * 16 + hex_val(s[5])) as u8) as char);
                    match sp_string_body(s.skip(6)) {
                        Option::Some((t, r)) => Option::Some((seq![c] + t, r)),
                        Option::None => Option::None,
                    }
                }
            } else {
                Option::None
            }
        }
    } else {
        match sp_string_body(s.drop_first()) {
            Option::Some((t, r)) => Option::Some((seq![s[0]] + t, r)),
            Option::None => Option::None,
        }
    }
}

/// Consume one signature object.
pub open spec fn sp_sig(s: Seq<char>) -> Option<(SigView, Seq<char>)> {
    if sp_lit(s, "{\"Named\":\""@) is Some {
        match sp_string_body(sp_lit(s, "{\"Named\":\""@)->Some_0) {
            Option::Some((n, r)) => match sp_lit(r, "}"@) {
                Option::Some(r2) => Option::Some((SigView::Named(n), r2)),
                Option::None => Option::None,
            },
            Option::None => Option::None,
        }
    } else if sp_lit(s, "{\"Anonymous\":\""@) is Some {
        match sp_string_body(sp_lit(s, "{\"Anonymous\":\""@)->Some_0) {
            Option::Some((d, r)) => match sp_lit(r, "}"@) {
                Option::Some(r2) => Option::Some((SigView::Anonymous(d), r2)),
                Option::None => Option::None,
            },
            Option::None => Option::None,
        }
    } else {
        Option::None
    }
}

/// Consume one device object; its signal strength must fit an `i32`.
pub open spec fn sp_device(s: Seq<char>) -> Option<((SigView, int), Seq<char>)> {
    match sp_lit(s, "{\"signature\":"@) {
        Option::Some(r1) => match sp_sig(r1) {
            Option::Some((sig, r2)) => match sp_lit(r2, ",\"rssi\":"@) {
                Option::Some(r3) => match sp_int(r3) {
                    Option::Some((v, r4)) => if i32::MIN <= v <= i32::MAX {
                        match sp_lit(r4, "}"@) {
                            Option::Some(r5) => Option::Some(((sig, v), r5)),
                            Option::None => Option::None,
                        }
                    } else {
                        Option::None
                    },
                    Option::None => Option::None,
                },
                Option::None => Option::None,
            },
            Option::None => Option::None,
        },
        Option::None => Option::None,
    }
}

/// A digit run is part of the text.
pub proof fn lemma_digit_span_bounds(s: Seq<char>)
    ensures
        0 <= digit_span(s) <= s.len(),
    decreases s.len(),
{
    if s.len() > 0 && is_dec_digit(s[0]) {
        lemma_digit_span_bounds(s.drop_first());
    }
}

/// Every successful string-body parse consumes at least the closing quote.
pub proof fn lemma_sp_string_body_consumes(s: Seq<char>)
    ensures
        sp_string_body(s) is Some ==> sp_string_body(s)->Some_0.1.len() < s.len(),
    decreases s.len(),
{
    if s.len() == 0 {
    } else if s[0] == '"' {
    } else if s[0] == '\\' {
        if s.len() >= 2 {
            lemma_sp_string_body_consumes(s.skip(2));
            if s.len() >= 6 {
                lemma_sp_string_body_consumes(s.skip(6));
            }
        }
    } else {
        lemma_sp_string_body_consumes(s.drop_first());
    }
}

/// Every successful device parse consumes at least one character.
pub proof fn lemma_sp_device_consumes(s: Seq<char>)
    ensures
        sp_device(s) is Some ==> sp_device(s)->Some_0.1.len() < s.len(),
{
    if sp_device(s) is Some {
        let r1 = sp_lit(s, "{\"signature\":"@)->Some_0;
        assert(r1.len() <= s.len());
        let r2 = sp_sig(r1)->Some_0.1;
        assert(r2.len() < r1.len()) by {
            if sp_lit(r1, "{\"Named\":\""@) is Some {
                let b = sp_lit(r1, "{\"Named\":\""@)->Some_0;
                reveal_strlit("{\"Named\":\"");
                assert(b.len() < r1.len());
                lemma_sp_string_body_consumes(b);
            } else {
                let b = sp_lit(r1, "{\"Anonymous\":\""@)->Some_0;
                reveal_strlit("{\"Anonymous\":\"");
                assert(b.len() < r1.len());
                lemma_sp_string_body_consumes(b);
            }
        }
        let r3 = sp_lit(r2, ",\"rssi\":"@)->Some_0;
        assert(r3.len() <= r2.len());
        let r4 = sp_int(r3)->Some_0.1;
        assert(r4.len() <= r3.len()) by {
            lemma_digit_span_bounds(r3);
            if r3.len() > 0 && r3[0] == '-' {
                lemma_digit_span_bounds(r3.drop_first());
            }
        }
        let r5 = sp_lit(r4, "}"@)->Some_0;
        assert(r5.len() <= r4.len());
    }
}

/// Consume the device list together with its closing bracket.
pub open spec fn sp_devices(s: Seq<char>) -> Option<(Seq<(SigView, int)>, Seq<char>)>
    decreases s.len(),
    when true
    via sp_devices_decreases
{
    if s.len() == 0 {
        Option::None
    } else if s[0] == ']' {
        Option::Some((Seq::empty(), s.drop_first()))
    } else {
        match sp_device(s) {
            Option::Some((d, r)) => {
                if r.len() > 0 && r[0] == ',' {
                    match sp_devices(r.drop_first()) {
                        Option::Some((ds, r2)) => Option::Some((seq![d] + ds, r2)),
                        Option::None => Option::None,
                    }
                } else if r.len() > 0 && r[0] == ']' {
                    Option::Some((seq![d], r.drop_first()))
                } else {
                    Option::None
                }
            },
            Option::None => Option::None,
        }
    }
}

#[via_fn]
proof fn sp_devices_decreases(s: Seq<char>) {
    lemma_sp_device_consumes(s);
}

/// Consume a whole compact form; nothing may follow the closing brace, the
/// sequence number must fit a `u32` and the count a `usize`.
pub open spec fn sp_compact(s: Seq<char>) -> Option<(int, int, Seq<(SigView, int)>)> {
    match sp_lit(s, "{\"seq\":"@) {
        Option::Some(r1) => match sp_nat(r1) {
            Option::Some((q, r2)) => if q <= u32::MAX {
                match sp_lit(r2, ",\"count\":"@) {
                    Option::Some(r3) => match sp_nat(r3) {
                        Option::Some((c, r4)) => if c <= usize::MAX {
                            match sp_lit(r4, ",\"devices\":["@) {
                                Option::Some(r5) => match sp_devices(r5) {
                                    Option::Some((ds, r6)) => match sp_lit(r6, "}"@) {
                                        Option::Some(r7) => if r7.len() == 0 {
                                            Option::Some((q, c, ds))
                                        } else {
                                            Option::None
                                        },
                                        Option::None => Option::None,
                                    },
                                    Option::None => Option::None,
                                },
                                Option::None => Option::None,
                            }
                        } else {
                            Option::None
                        },
                        Option::None => Option::None,
                    },
                    Option::None => Option::None,
                }
            } else {
                Option::None
            },
            Option::None => Option::None,
        },
        Option::None => Option::None,
    }
}

} // verus!

verus! {

/// A byte cast to a character keeps its code point.
proof fn lemma_u8_char_code(v: u8)
    ensures
        ((v as char) as u32) == v as u32,
{
}

/// The decimal rendering is all digits, at least one, and denotes the
/// number it was rendered from.
pub proof fn lemma_dec_nat_digits(n: nat)
    ensures
        dec_nat(n).len() >= 1,
        forall|i: int| 0 <= i < dec_nat(n).len() ==> is_dec_digit(#[trigger] dec_nat(n)[i]),
        digits_val(dec_nat(n)) == n,
    decreases n,
{
    if n < 10 {
        lemma_u8_char_code((48 + n) as u8);
        assert(dec_nat(n) =~= seq![dec_digit(n as int)]);
        assert(digits_val(dec_nat(n)) == n) by {
            assert(dec_nat(n).drop_last() =~= Seq::<char>::empty());
            assert(digits_val(dec_nat(n).drop_last()) == 0);
        }
    } else {
        lemma_dec_nat_digits(n / 10);
        let d = (n % 10) as int;
        lemma_u8_char_code((48 + d) as u8);
        let s = dec_nat(n);
        assert(s == dec_nat(n / 10).push(dec_digit(d)));
        assert(s.drop_last() =~= dec_nat(n / 10));
        assert(s.last() == dec_digit(d));
        assert(digit_val(dec_digit(d)) == d);
        assert(digits_val(s) == (n / 10) * 10 + n % 10);
        assert forall|i: int| 0 <= i < s.len() implies is_dec_digit(#[trigger] s[i]) by {
            if i < s.len() - 1 {
                assert(s[i] == dec_nat(n / 10)[i]);
            }
        }
    }
}

/// A digit run followed by a non-digit spans exactly the run.
pub proof fn lemma_digit_span_exact(d: Seq<char>, rest: Seq<char>)
    requires
        forall|i: int| 0 <= i < d.len() ==> is_dec_digit(#[trigger] d[i]),
        rest.len() == 0 || !is_dec_digit(rest[0]),
    ensures
        digit_span(d + rest) == d.len(),
    decreases d.len(),
{
    if d.len() == 0 {
        assert(d + rest =~= rest);
    } else {
        assert((d + rest)[0] == d[0]);
        assert((d + rest).drop_first() =~= d.drop_first() + rest);
        lemma_digit_span_exact(d.drop_first(), rest);
    }
}

/// A rendered number followed by a non-digit parses back to itself.
pub proof fn lemma_sp_nat_render(n: nat, rest: Seq<char>)
    requires
        n <= u64::MAX,
        rest.len() == 0 || !is_dec_digit(rest[0]),
    ensures
        sp_nat(dec_nat(n) + rest) == Option::Some((n as int, rest)),
{
    lemma_dec_nat_digits(n);
    lemma_digit_span_exact(dec_nat(n), rest);
    let s = dec_nat(n) + rest;
    let k = digit_span(s);
    assert(k == dec_nat(n).len());
    assert(s.take(k) =~= dec_nat(n));
    assert(s.skip(k) =~= rest);
}

/// A rendered integer followed by a non-digit parses back to itself.
pub proof fn lemma_sp_int_render(v: int, rest: Seq<char>)
    requires
        -(u64::MAX as int) <= v <= u64::MAX as int,
        rest.len() == 0 || !is_dec_digit(rest[0]),
    ensures
        sp_int(dec_int(v) + rest) == Option::Some((v, rest)),
{
    let s = dec_int(v) + rest;
    if v < 0 {
        assert(s[0] == '-');
        assert(s.drop_first() =~= dec_nat((-v) as nat) + rest) by {
            assert(dec_int(v) =~= seq!['-'] + dec_nat((-v) as nat));
        }
        lemma_sp_nat_render((-v) as nat, rest);
    } else {
        lemma_dec_nat_digits(v as nat);
        assert(s[0] == dec_nat(v as nat)[0]);
        assert(is_dec_digit(s[0]));
        assert(s[0] != '-') by {
            if s[0] == '-' {
                assert(s[0] as u32 == 45);
            }
        }
        lemma_sp_nat_render(v as nat, rest);
    }
}

/// An escaped string, its closing quote, and whatever follows parse back
/// to the original string and the rest.
#[verifier::rlimit(40)]
pub proof fn lemma_sp_string_render(x: Seq<char>, rest: Seq<char>)
    ensures
        sp_string_body(escape(x) + seq!['"'] + rest) == Option::Some((x, rest)),
    decreases x.len(),
{
    if x.len() == 0 {
        let s = escape(x) + seq!['"'] + rest;
        assert(s =~= seq!['"'] + rest);
        assert(s[0] == '"');
        assert(s.drop_first() =~= rest);
    } else {
        let c = x[0];
        let tail = escape(x.drop_first()) + seq!['"'] + rest;
        let s = escape(x) + seq!['"'] + rest;
        assert(s =~= escape_char(c) + tail) by {
            assert(escape(x) == escape_char(c) + escape(x.drop_first()));
        }
        lemma_sp_string_render(x.drop_first(), rest);
        let u = c as u32;
        if c == '"' {
            assert(s[0] == '\\' && s[1] == '"');
            assert(s.skip(2) =~= tail);
            assert(seq![c] + x.drop_first() =~= x);
        } else if c == '\\' {
            assert(s[0] == '\\' && s[1] == '\\');
            assert(s.skip(2) =~= tail);
            assert(seq![c] + x.drop_first() =~= x);
        } else if u == 8 || u == 9 || u == 10 || u == 12 || u == 13 {
            assert(s[0] == '\\');
            assert(s.skip(2) =~= tail);
            let e = s[1];
            let p = if e == 'b' {
                ((8 as u8) as char)
            } else if e == 't' {
                ((9 as u8) as char)
            } else if e == 'n' {
                ((10 as u8) as char)
            } else if e == 'f' {
                ((12 as u8) as char)
            } else {
                ((13 as u8) as char)
            };
            assert(e == 'b' || e == 't' || e == 'n' || e == 'f' || e == 'r');
            assert(e != '"' && e != '\\');
            assert(p as u32 == u) by {
                lemma_u8_char_code(8);
                lemma_u8_char_code(9);
                lemma_u8_char_code(10);
                lemma_u8_char_code(12);
                lemma_u8_char_code(13);
            }
            assert(p == c) by {
                vstd::utf8::char_u32_cast(c, u);
                vstd::utf8::char_u32_cast(p, u);
            }
            assert(seq![c] + x.drop_first() =~= x);
        } else if u < 32 {
            assert(s[0] == '\\' && s[1] == 'u' && s[2] == '0' && s[3] == '0');
            assert(s[1] != '"' && s[1] != '\\' && s[1] != 'b' && s[1] != 't' && s[1] != 'n' && s[1]
                != 'f' && s[1] != 'r');
            let hi = (u / 16) as int;
            let lo = (u % 16) as int;
            assert(s[4] == hex_digit(hi) && s[5] == hex_digit(lo));
            assert(is_hex_digit(s[4]) && hex_val(s[4]) == hi) by {
                lemma_u8_char_code((48 + hi) as u8);
                lemma_u8_char_code((87 + hi) as u8);
            }
            assert(is_hex_digit(s[5]) && hex_val(s[5]) == lo) by {
                lemma_u8_char_code((48 + lo) as u8);
                lemma_u8_char_code((87 + lo) as u8);
            }
            assert(s.len() >= 6);
            assert(s.skip(6) =~= tail);
            let p = (((hex_val(s[4]) * 16 + hex_val(s[5])) as u8) as char);
            assert(p as u32 == u) by {
                lemma_u8_char_code((hi * 16 + lo) as u8);
            }
            assert(p == c) by {
                vstd::utf8::char_u32_cast(c, u);
                vstd::utf8::char_u32_cast(p, u);
            }
            assert(seq![c] + x.drop_first() =~= x);
        } else {
            assert(escape_char(c) =~= seq![c]);
            assert(s[0] == c);
            assert(c != '"' && c != '\\');
            assert(s.drop_first() =~= tail);
            assert(seq![c] + x.drop_first() =~= x);
        }
    }
}

/// A rendered literal prefix is consumed exactly.
pub proof fn lemma_sp_lit_render(lit: Seq<char>, rest: Seq<char>)
    ensures
        sp_lit(lit + rest, lit) == Option::Some(rest),
{
    let s = lit + rest;
    assert(s.take(lit.len() as int) =~= lit);
    assert(s.skip(lit.len() as int) =~= rest);
}

} // verus!

verus! {

/// A rendered signature object parses back to the signature.
pub proof fn lemma_sp_sig_render(sig: SigView, rest: Seq<char>)
    ensures
        sp_sig(sig_json(sig) + rest) == Option::Some((sig, rest)),
{
    reveal_strlit("{\"Named\":\"");
    reveal_strlit("{\"Anonymous\":\"");
    reveal_strlit("\"}");
    reveal_strlit("}");
    let s = sig_json(sig) + rest;
    match sig {
        SigView::Named(n) => {
            let tail = escape(n) + (seq!['"'] + (seq!['}'] + rest));
            assert(s =~= "{\"Named\":\""@ + tail);
            lemma_sp_lit_render("{\"Named\":\""@, tail);
            assert(sp_lit(s, "{\"Named\":\""@) == Option::Some(tail));
            assert(tail =~= escape(n) + seq!['"'] + (seq!['}'] + rest));
            lemma_sp_string_render(n, seq!['}'] + rest);
            assert(sp_string_body(tail) == Option::Some((n, seq!['}'] + rest)));
            assert(seq!['}'] + rest =~= "}"@ + rest);
            lemma_sp_lit_render("}"@, rest);
        },
        SigView::Anonymous(d) => {
            assert(sp_lit(s, "{\"Named\":\""@) is None) by {
                assert(s[2] == 'A');
                if sp_lit(s, "{\"Named\":\""@) is Some {
                    assert(s.take("{\"Named\":\""@.len() as int) == "{\"Named\":\""@);
                    assert(s.take("{\"Named\":\""@.len() as int)[2] == s[2]);
                    assert("{\"Named\":\""@[2] == 'N');
                }
            }
            let tail = escape(d) + (seq!['"'] + (seq!['}'] + rest));
            assert(s =~= "{\"Anonymous\":\""@ + tail);
            lemma_sp_lit_render("{\"Anonymous\":\""@, tail);
            assert(sp_lit(s, "{\"Anonymous\":\""@) == Option::Some(tail));
            assert(tail =~= escape(d) + seq!['"'] + (seq!['}'] + rest));
            lemma_sp_string_render(d, seq!['}'] + rest);
            assert(sp_string_body(tail) == Option::Some((d, seq!['}'] + rest)));
            assert(seq!['}'] + rest =~= "}"@ + rest);
            lemma_sp_lit_render("}"@, rest);
        },
    }
}

/// A rendered device object parses back to its signature and signal
/// strength.
pub proof fn lemma_sp_device_render(sig: SigView, v: int, rest: Seq<char>)
    requires
        i32::MIN <= v <= i32::MAX,
    ensures
        sp_device(device_json(sig, v) + rest) == Option::Some(((sig, v), rest)),
{
    reveal_strlit("{\"signature\":");
    reveal_strlit(",\"rssi\":");
    reveal_strlit("}");
    let s = device_json(sig, v) + rest;
    let t1 = sig_json(sig) + (",\"rssi\":"@ + (dec_int(v) + ("}"@ + rest)));
    assert(s =~= "{\"signature\":"@ + t1);
    lemma_sp_lit_render("{\"signature\":"@, t1);
    assert(sp_lit(s, "{\"signature\":"@) == Option::Some(t1));
    let t2 = ",\"rssi\":"@ + (dec_int(v) + ("}"@ + rest));
    assert(t1 =~= sig_json(sig) + t2);
    lemma_sp_sig_render(sig, t2);
    let t3 = dec_int(v) + ("}"@ + rest);
    lemma_sp_lit_render(",\"rssi\":"@, t3);
    let t4 = "}"@ + rest;
    assert(t3 =~= dec_int(v) + t4);
    assert(t4.len() == 0 || !is_dec_digit(t4[0])) by {
        assert(t4[0] == '}');
    }
    lemma_sp_int_render(v, t4);
    lemma_sp_lit_render("}"@, rest);
}

/// A rendered device list followed by its closing bracket parses back to
/// the same devices.
pub proof fn lemma_sp_devices_render(ds: Seq<(SigView, int)>, rest: Seq<char>)
    requires
        forall|i: int| 0 <= i < ds.len() ==> i32::MIN <= (#[trigger] ds[i]).1 <= i32::MAX,
    ensures
        sp_devices(devices_json(ds) + (seq![']'] + rest)) == Option::Some((ds, rest)),
    decreases ds.len(),
{
    reveal_strlit("{\"signature\":");
    reveal_strlit(",");
    let s = devices_json(ds) + (seq![']'] + rest);
    if ds.len() == 0 {
        assert(s =~= seq![']'] + rest);
        assert(s[0] == ']');
        assert(s.drop_first() =~= rest);
        assert(Seq::<(SigView, int)>::empty() =~= ds);
    } else {
        assert(s[0] == '{') by {
            assert(device_json(ds[0].0, ds[0].1)[0] == "{\"signature\":"@[0]);
        }
        assert(s[0] != ']');
        if ds.len() == 1 {
            let tail = seq![']'] + rest;
            assert(s =~= device_json(ds[0].0, ds[0].1) + tail);
            lemma_sp_device_render(ds[0].0, ds[0].1, tail);
            assert(sp_device(s) == Option::Some(((ds[0].0, ds[0].1), tail)));
            assert(tail[0] == ']');
            assert(tail[0] != ',');
            assert(tail.drop_first() =~= rest);
            assert(seq![(ds[0].0, ds[0].1)] =~= ds);
        } else {
            let more = devices_json(ds.drop_first()) + (seq![']'] + rest);
            let tail = seq![','] + more;
            assert(s =~= device_json(ds[0].0, ds[0].1) + tail) by {
                assert(","@ =~= seq![',']);
                assert(devices_json(ds) == device_json(ds[0].0, ds[0].1) + ","@ + devices_json(
                    ds.drop_first(),
                ));
            }
            lemma_sp_device_render(ds[0].0, ds[0].1, tail);
            assert(sp_device(s) == Option::Some(((ds[0].0, ds[0].1), tail)));
            assert(tail[0] == ',');
            assert(forall|i: int|
                0 <= i < ds.drop_first().len() ==> i32::MIN <= (#[trigger] ds.drop_first()[i]).1
                    <= i32::MAX);
            lemma_sp_devices_render(ds.drop_first(), rest);
            assert(tail.drop_first() =~= more);
            assert(seq![(ds[0].0, ds[0].1)] + ds.drop_first() =~= ds);
        }
    }
}

/// Round trip: the compact form renders back, through the grammar's own
/// consumer, to the same sequence number, count, and device list content.
pub proof fn lemma_compact_round_trip(q: int, c: int, ds: Seq<(SigView, int)>)
    requires
        0 <= q <= u32::MAX,
        0 <= c <= usize::MAX,
        forall|i: int| 0 <= i < ds.len() ==> i32::MIN <= (#[trigger] ds[i]).1 <= i32::MAX,
    ensures
        sp_compact(compact_json(q, c, ds)) == Option::Some((q, c, ds)),
{
    reveal_strlit("{\"seq\":");
    reveal_strlit(",\"count\":");
    reveal_strlit(",\"devices\":[");
    reveal_strlit("]}");
    reveal_strlit("}");
    let s = compact_json(q, c, ds);
    let t1 = dec_nat(q as nat) + (",\"count\":"@ + (dec_nat(c as nat) + (",\"devices\":["@ + (
    devices_json(ds) + "]}"@))));
    assert(s =~= "{\"seq\":"@ + t1) by {
        assert(dec_int(q) == dec_nat(q as nat));
        assert(dec_int(c) == dec_nat(c as nat));
    }
    lemma_sp_lit_render("{\"seq\":"@, t1);
    assert(sp_lit(s, "{\"seq\":"@) == Option::Some(t1));
    let t2 = ",\"count\":"@ + (dec_nat(c as nat) + (",\"devices\":["@ + (devices_json(ds)
        + "]}"@)));
    assert(t2.len() == 0 || !is_dec_digit(t2[0])) by {
        assert(t2[0] == ',');
    }
    assert(t1 =~= dec_nat(q as nat) + t2);
    lemma_sp_nat_render(q as nat, t2);
    let t3 = dec_nat(c as nat) + (",\"devices\":["@ + (devices_json(ds) + "]}"@));
    lemma_sp_lit_render(",\"count\":"@, t3);
    let t4 = ",\"devices\":["@ + (devices_json(ds) + "]}"@);
    assert(t4.len() == 0 || !is_dec_digit(t4[0])) by {
        assert(t4[0] == ',');
    }
    assert(t3 =~= dec_nat(c as nat) + t4);
    lemma_sp_nat_render(c as nat, t4);
    let t5 = devices_json(ds) + "]}"@;
    lemma_sp_lit_render(",\"devices\":["@, t5);
    assert(t5 =~= devices_json(ds) + (seq![']'] + "}"@)) by {
        assert("]}"@ =~= seq![']'] + "}"@);
    }
    lemma_sp_devices_render(ds, "}"@);
    lemma_sp_lit_render("}"@, Seq::<char>::empty());
    assert("}"@ =~= "}"@ + Seq::<char>::empty());
    assert(sp_lit("}"@, "}"@) == Option::Some(Seq::<char>::empty()));
}

} // verus!

verus! {

/// All of a digit run is digits, and it ends the run.
pub proof fn lemma_digit_span_digits(u: Seq<char>)
    ensures
        0 <= digit_span(u) <= u.len(),
        forall|k: int| 0 <= k < digit_span(u) ==> is_dec_digit(#[trigger] u[k]),
        digit_span(u) < u.len() ==> !is_dec_digit(u[digit_span(u)]),
    decreases u.len(),
{
    if u.len() > 0 && is_dec_digit(u[0]) {
        let w = u.drop_first();
        lemma_digit_span_digits(w);
        assert(forall|k: int| 0 <= k < w.len() ==> #[trigger] w[k] == u[k + 1]);
        assert forall|k: int| 0 <= k < digit_span(u) implies is_dec_digit(#[trigger] u[k]) by {
            if k > 0 {
                assert(is_dec_digit(w[k - 1]));
            }
        }
        if digit_span(u) < u.len() {
            assert(u[digit_span(u)] == w[digit_span(w)]);
        }
    }
}

/// A text whose first characters are digits has at least that long a run.
pub proof fn lemma_digit_span_at_least(u: Seq<char>, m: int)
    requires
        0 <= m <= u.len(),
        forall|k: int| 0 <= k < m ==> is_dec_digit(#[trigger] u[k]),
    ensures
        digit_span(u) >= m,
    decreases m,
{
    lemma_digit_span_bounds(u);
    if m > 0 {
        assert(is_dec_digit(u[0]));
        let w = u.drop_first();
        assert forall|k: int| 0 <= k < m - 1 implies is_dec_digit(#[trigger] w[k]) by {
            assert(w[k] == u[k + 1]);
            assert(is_dec_digit(u[k + 1]));
        }
        lemma_digit_span_at_least(w, m - 1);
        assert(digit_span(u) == 1 + digit_span(w));
    }
}

/// One more digit multiplies the value by ten and adds the digit.
pub proof fn lemma_digits_val_step(u: Seq<char>, i: int)
    requires
        0 <= i < u.len(),
    ensures
        digits_val(u.take(i + 1)) == digits_val(u.take(i)) * 10 + digit_val(u[i]),
{
    assert(u.take(i + 1).drop_last() =~= u.take(i));
    assert(u.take(i + 1).last() == u[i]);
}

/// Over a digit run the value is non-negative and grows with the run.
pub proof fn lemma_digits_val_monotone(u: Seq<char>, i: int, j: int)
    requires
        0 <= i <= j <= u.len(),
        forall|k: int| 0 <= k < j ==> is_dec_digit(#[trigger] u[k]),
    ensures
        0 <= digits_val(u.take(i)) <= digits_val(u.take(j)),
    decreases j - i,
{
    if i == j {
        lemma_digits_val_nonneg(u, i);
    } else {
        lemma_digits_val_monotone(u, i, j - 1);
        lemma_digits_val_step(u, j - 1);
        assert(digits_val(u.take(j - 1)) * 10 >= digits_val(u.take(j - 1))) by (nonlinear_arith)
            requires
                digits_val(u.take(j - 1)) >= 0,
        ;
    }
}

/// The value of a digit run is never negative.
pub proof fn lemma_digits_val_nonneg(u: Seq<char>, i: int)
    requires
        0 <= i <= u.len(),
        forall|k: int| 0 <= k < i ==> is_dec_digit(#[trigger] u[k]),
    ensures
        digits_val(u.take(i)) >= 0,
    decreases i,
{
    if i > 0 {
        lemma_digits_val_nonneg(u, i - 1);
        lemma_digits_val_step(u, i - 1);
        assert(digits_val(u.take(i - 1)) * 10 >= 0) by (nonlinear_arith)
            requires
                digits_val(u.take(i - 1)) >= 0,
        ;
    } else {
        assert(u.take(0).len() == 0);
    }
}

/// Whether the character at this position is a decimal digit.
fn digit_at(s: &Vec<char>, i: usize) -> (r: bool)
    ensures
        r == (i < s@.len() && is_dec_digit(s@[i as int])),
{
    if i < s.len() {
        let u = s[i] as u32;
        48 <= u && u <= 57
    } else {
        false
    }
}

/// Consume an exact literal at `pos`, or report that it is not there.
fn p_lit(s: &Vec<char>, pos: usize, lit: &str) -> (r: Option<usize>)
    requires
        pos <= s@.len(),
    ensures
        match r {
            Some(p2) => pos <= p2 <= s@.len() && sp_lit(s@.skip(pos as int), lit@) == Option::Some(
                s@.skip(p2 as int),
            ),
            None => sp_lit(s@.skip(pos as int), lit@) is None,
        },
{
    let ghost u = s@.skip(pos as int);
    let n = lit.unicode_len();
    let slen = s.len();
    if slen - pos < n {
        proof {
            assert(u.len() < lit@.len());
        }
        return None;
    }
    let mut i: usize = 0;
    while i < n
        invariant
            i <= n,
            n == lit@.len(),
            slen == s@.len(),
            pos + n <= slen,
            u == s@.skip(pos as int),
            forall|k: int| 0 <= k < i ==> u[k] == lit@[k],
        decreases n - i,
    {
        let c = lit.get_char(i);
        if s[pos + i] != c {
            proof {
                assert(u[i as int] == s@[pos + i]);
                if sp_lit(u, lit@) is Some {
                    assert(u.take(lit@.len() as int)[i as int] == u[i as int]);
                }
            }
            return None;
        }
        proof {
            assert(u[i as int] == s@[pos + i]);
        }
        i = i + 1;
    }
    proof {
        assert(u.take(lit@.len() as int) =~= lit@);
        assert(u.skip(lit@.len() as int) =~= s@.skip(pos + n));
    }
    Some(pos + n)
}

/// Consume a number at `pos`: one or more digits within the 64-bit bound.
fn p_nat(s: &Vec<char>, pos: usize) -> (r: Option<(u64, usize)>)
    requires
        pos <= s@.len(),
    ensures
        match r {
            Some((v, p2)) => pos <= p2 <= s@.len() && sp_nat(s@.skip(pos as int)) == Option::Some(
                (v as int, s@.skip(p2 as int)),
            ),
            None => sp_nat(s@.skip(pos as int)) is None,
        },
{
    let ghost u = s@.skip(pos as int);
    if !digit_at(s, pos) {
        proof {
            if pos < s@.len() {
                assert(u[0] == s@[pos as int]);
            }
            assert(digit_span(u) == 0);
        }
        return None;
    }
    let len = s.len();
    let mut i: usize = pos;
    let mut acc: u64 = 0;
    while digit_at(s, i)
        invariant
            len == s@.len(),
            pos <= i <= len,
            u == s@.skip(pos as int),
            forall|k: int| 0 <= k < i - pos ==> is_dec_digit(#[trigger] u[k]),
            acc as int == digits_val(u.take(i - pos)),
        decreases s@.len() - i,
    {
        let c = s[i];
        let d: u64 = ((c as u32) - 48) as u64;
        proof {
            assert(u[i - pos] == s@[i as int]);
            assert(digit_val(u[i - pos]) == d as int);
        }
        if acc > (u64::MAX - d) / 10 {
            proof {
                lemma_digit_span_digits(u);
                let m = i - pos + 1;
                lemma_digit_span_at_least(u, m);
                let span = digit_span(u);
                lemma_digits_val_step(u, i - pos);
                assert(digits_val(u.take(m)) == acc as int * 10 + d as int);
                assert(acc as int * 10 + d > u64::MAX) by (nonlinear_arith)
                    requires
                        acc as int > (u64::MAX - d as int) / 10,
                        0 <= d <= 9,
                        acc as int >= 0,
                ;
                lemma_digits_val_monotone(u, m, span);
                assert(digits_val(u.take(span)) > u64::MAX);
            }
            return None;
        }
        proof {
            assert(acc as int * 10 + d <= u64::MAX) by (nonlinear_arith)
                requires
                    acc as int <= (u64::MAX - d as int) / 10,
                    0 <= d <= 9,
                    acc as int >= 0,
            ;
            lemma_digits_val_step(u, i - pos);
        }
        acc = acc * 10 + d;
        i = i + 1;
    }
    proof {
        assert(u =~= u.take(i - pos) + u.skip(i - pos));
        assert(u.skip(i - pos).len() == 0 || !is_dec_digit(u.skip(i - pos)[0])) by {
            if i < s@.len() {
                assert(u.skip(i - pos)[0] == u[i - pos]);
                assert(u[i - pos] == s@[i as int]);
            }
        }
        lemma_digit_span_exact(u.take(i - pos), u.skip(i - pos));
        assert(digit_span(u) == i - pos);
        assert(i - pos >= 1);
        assert(u.skip(i - pos) =~= s@.skip(i as int));
    }
    Some((acc, i))
}

} // verus!

verus! {

/// The value of a hexadecimal digit character, if it is one.
fn hex_val_at(c: char) -> (r: Option<u32>)
    ensures
        match r {
            Some(v) => is_hex_digit(c) && v as int == hex_val(c) && v < 16,
            None => !is_hex_digit(c),
        },
{
    let u = c as u32;
    if 48 <= u && u <= 57 {
        Some(u - 48)
    } else if 97 <= u && u <= 102 {
        Some(u - 87)
    } else {
        None
    }
}

/// Consume a JSON string body at `pos` through its closing quote,
/// undoing the escapes.
#[verifier::loop_isolation(false)]
#[verifier::rlimit(40)]
fn p_string(s: &Vec<char>, pos: usize) -> (r: Option<(String, usize)>)
    requires
        pos <= s@.len(),
    ensures
        match r {
            Some((t, p2)) => pos <= p2 <= s@.len() && sp_string_body(s@.skip(pos as int))
                == Option::Some((t@, s@.skip(p2 as int))),
            None => sp_string_body(s@.skip(pos as int)) is None,
        },
{
    let ghost u0 = s@.skip(pos as int);
    let len = s.len();
    let mut acc = String::new();
    let mut cur: usize = pos;
    loop
        invariant
            pos <= cur <= len,
            match sp_string_body(s@.skip(cur as int)) {
                Option::Some((t, r)) => sp_string_body(u0) == Option::Some((acc@ + t, r)),
                Option::None => sp_string_body(u0) is None,
            },
        decreases len - cur,
    {
        let ghost u = s@.skip(cur as int);
        if cur == len {
            proof {
                assert(u.len() == 0);
            }
            return None;
        }
        let c = s[cur];
        proof {
            assert(u[0] == s@[cur as int]);
        }
        if c == '"' {
            proof {
                assert(sp_string_body(u) == Option::Some(
                    (Seq::<char>::empty(), u.drop_first()),
                ));
                assert(acc@ + Seq::<char>::empty() =~= acc@);
                assert(u.drop_first() =~= s@.skip(cur + 1));
            }
            return Some((acc, cur + 1));
        } else if c == '\\' {
            if cur + 1 == len {
                proof {
                    assert(u.len() < 2);
                }
                return None;
            }
            let e = s[cur + 1];
            proof {
                assert(u[1] == s@[cur + 1]);
            }
            if e == '"' || e == '\\' {
                let ghost before = acc@;
                push_char(&mut acc, e);
                proof {
                    assert(u.skip(2) =~= s@.skip(cur + 2));
                    if sp_string_body(s@.skip(cur + 2)) is Some {
                        let t = sp_string_body(s@.skip(cur + 2))->Some_0.0;
                        assert(sp_string_body(u)->Some_0.0 == seq![e] + t);
                        assert(acc@ + t =~= before + (seq![e] + t));
                    }
                }
                cur = cur + 2;
            } else if e == 'b' || e == 't' || e == 'n' || e == 'f' || e == 'r' {
                let d: char = if e == 'b' {
                    (8 as u8) as char
                } else if e == 't' {
                    (9 as u8) as char
                } else if e == 'n' {
                    (10 as u8) as char
                } else if e == 'f' {
                    (12 as u8) as char
                } else {
                    (13 as u8) as char
                };
                let ghost before = acc@;
                push_char(&mut acc, d);
                proof {
                    assert(u.skip(2) =~= s@.skip(cur + 2));
                    if sp_string_body(s@.skip(cur + 2)) is Some {
                        let t = sp_string_body(s@.skip(cur + 2))->Some_0.0;
                        assert(sp_string_body(u)->Some_0.0 == seq![d] + t);
                        assert(acc@ + t =~= before + (seq![d] + t));
                    }
                }
                cur = cur + 2;
            } else if e == 'u' {
                if len - cur < 6 {
                    proof {
                        assert(u.len() < 6);
                    }
                    return None;
                }
                let c2 = s[cur + 2];
                let c3 = s[cur + 3];
                let h1 = s[cur + 4];
                let h2 = s[cur + 5];
                proof {
                    assert(u[2] == s@[cur + 2]);
                    assert(u[3] == s@[cur + 3]);
                    assert(u[4] == s@[cur + 4]);
                    assert(u[5] == s@[cur + 5]);
                }
                if c2 != '0' || c3 != '0' {
                    return None;
                }
                match (hex_val_at(h1), hex_val_at(h2)) {
                    (Some(v1), Some(v2)) => {
                        let d: char = ((v1 * 16 + v2) as u8) as char;
                        proof {
                            assert(d == (((hex_val(u[4]) * 16 + hex_val(u[5])) as u8) as char));
                        }
                        let ghost before = acc@;
                        push_char(&mut acc, d);
                        proof {
                            assert(u.skip(6) =~= s@.skip(cur + 6));
                            if sp_string_body(s@.skip(cur + 6)) is Some {
                                let t = sp_string_body(s@.skip(cur + 6))->Some_0.0;
                                assert(sp_string_body(u)->Some_0.0 == seq![d] + t);
                                assert(acc@ + t =~= before + (seq![d] + t));
                            }
                        }
                        cur = cur + 6;
                    },
                    (_, _) => {
                        return None;
                    },
                }
            } else {
                return None;
            }
        } else {
            let ghost before = acc@;
            push_char(&mut acc, c);
            proof {
                assert(u.drop_first() =~= s@.skip(cur + 1));
                if sp_string_body(s@.skip(cur + 1)) is Some {
                    let t = sp_string_body(s@.skip(cur + 1))->Some_0.0;
                    assert(sp_string_body(u)->Some_0.0 == seq![c] + t);
                    assert(acc@ + t =~= before + (seq![c] + t));
                }
            }
            cur = cur + 1;
        }
    }
}

} // verus!

verus! {

/// Consume one signature object at `pos`.
fn p_sig(s: &Vec<char>, pos: usize) -> (r: Option<(Signature, usize)>)
    requires
        pos <= s@.len(),
    ensures
        match r {
            Some((sig, p2)) => pos <= p2 <= s@.len() && sp_sig(s@.skip(pos as int))
                == Option::Some((sig@, s@.skip(p2 as int))),
            None => sp_sig(s@.skip(pos as int)) is None,
        },
{
    match p_lit(s, pos, "{\"Named\":\"") {
        Some(p1) => match p_string(s, p1) {
            Some((t, p2)) => match p_lit(s, p2, "}") {
                Some(p3) => Some((Signature::Named(t), p3)),
                None => None,
            },
            None => None,
        },
        None => match p_lit(s, pos, "{\"Anonymous\":\"") {
            Some(p1) => match p_string(s, p1) {
                Some((t, p2)) => match p_lit(s, p2, "}") {
                    Some(p3) => Some((Signature::Anonymous(t), p3)),
                    None => None,
                },
                None => None,
            },
            None => None,
        },
    }
}

/// Consume one device object at `pos`; the signal strength must fit an
/// `i32`.
fn p_device(s: &Vec<char>, pos: usize) -> (r: Option<((Signature, i32), usize)>)
    requires
        pos <= s@.len(),
    ensures
        match r {
            Some(((sig, v), p2)) => pos <= p2 <= s@.len() && sp_device(s@.skip(pos as int))
                == Option::Some(((sig@, v as int), s@.skip(p2 as int))),
            None => sp_device(s@.skip(pos as int)) is None,
        },
{
    let p1 = match p_lit(s, pos, "{\"signature\":") {
        Some(p) => p,
        None => {
            return None;
        },
    };
    let (sig, p2) = match p_sig(s, p1) {
        Some(x) => x,
        None => {
            return None;
        },
    };
    let p3 = match p_lit(s, p2, ",\"rssi\":") {
        Some(p) => p,
        None => {
            return None;
        },
    };
    let ghost u3 = s@.skip(p3 as int);
    let neg = if p3 < s.len() {
        let c = s[p3];
        proof {
            assert(u3[0] == s@[p3 as int]);
        }
        c == '-'
    } else {
        false
    };
    let nat_pos = if neg {
        p3 + 1
    } else {
        p3
    };
    proof {
        if neg {
            assert(u3.drop_first() =~= s@.skip(p3 + 1));
        }
    }
    let (mag, p4) = match p_nat(s, nat_pos) {
        Some(x) => x,
        None => {
            return None;
        },
    };
    let v: i32 = if neg {
        if mag > 2147483648 {
            proof {
                assert(sp_int(u3) == Option::Some((-(mag as int), s@.skip(p4 as int))));
            }
            return None;
        }
        if mag == 2147483648 {
            i32::MIN
        } else {
            -(mag as i32)
        }
    } else {
        if mag > 2147483647 {
            proof {
                assert(sp_int(u3) == Option::Some((mag as int, s@.skip(p4 as int))));
            }
            return None;
        }
        mag as i32
    };
    proof {
        assert(sp_int(u3) == Option::Some((v as int, s@.skip(p4 as int))));
    }
    match p_lit(s, p4, "}") {
        Some(p5) => Some(((sig, v), p5)),
        None => None,
    }
}

/// Parse a compact transport form back into its sequence number, total
/// count, and device list. Exactly the texts the grammar accepts are
/// decoded; anything else is refused.
#[verifier::loop_isolation(false)]
#[verifier::rlimit(60)]
pub fn decode_compact(text: &Vec<char>) -> (r: Option<(u32, usize, Vec<(Signature, i32)>)>)
    ensures
        match r {
            Some((q, c, ds)) => sp_compact(text@) == Option::Some(
                (q as int, c as int, sig_pairs(ds@)),
            ),
            None => sp_compact(text@) is None,
        },
{
    proof {
        assert(text@.skip(0) =~= text@);
    }
    let p1 = match p_lit(text, 0, "{\"seq\":") {
        Some(p) => p,
        None => {
            return None;
        },
    };
    let (q64, p2) = match p_nat(text, p1) {
        Some(x) => x,
        None => {
            return None;
        },
    };
    if q64 > 0xFFFF_FFFF {
        return None;
    }
    let q: u32 = q64 as u32;
    let p3 = match p_lit(text, p2, ",\"count\":") {
        Some(p) => p,
        None => {
            return None;
        },
    };
    let (c64, p4) = match p_nat(text, p3) {
        Some(x) => x,
        None => {
            return None;
        },
    };
    if c64 > usize::MAX as u64 {
        return None;
    }
    let c: usize = c64 as usize;
    let p5 = match p_lit(text, p4, ",\"devices\":[") {
        Some(p) => p,
        None => {
            return None;
        },
    };
    let ghost dev0 = text@.skip(p5 as int);
    let mut ds: Vec<(Signature, i32)> = Vec::new();
    let mut cur: usize = p5;
    let len = text.len();
    let mut done = false;
    while !done
        invariant
            p5 <= cur <= len,
            !done ==> match sp_devices(text@.skip(cur as int)) {
                Option::Some((more, rest)) => sp_devices(dev0) == Option::Some(
                    (sig_pairs(ds@) + more, rest),
                ),
                Option::None => sp_devices(dev0) is None,
            },
            done ==> sp_devices(dev0) == Option::Some((sig_pairs(ds@), text@.skip(cur as int))),
        decreases len - cur,
    {
        let ghost u = text@.skip(cur as int);
        if cur == len {
            proof {
                assert(u.len() == 0);
            }
            return None;
        }
        let ch = text[cur];
        proof {
            assert(u[0] == text@[cur as int]);
        }
        if ch == ']' {
            proof {
                assert(sp_devices(u) == Option::Some(
                    (Seq::<(SigView, int)>::empty(), u.drop_first()),
                ));
                assert(sig_pairs(ds@) + Seq::<(SigView, int)>::empty() =~= sig_pairs(ds@));
                assert(u.drop_first() =~= text@.skip(cur + 1));
            }
            cur = cur + 1;
            done = true;
        } else {
            let ((sig, v), p_next) = match p_device(text, cur) {
                Some(x) => x,
                None => {
                    return None;
                },
            };
            proof {
                lemma_sp_device_consumes(u);
                assert(text@.skip(p_next as int).len() < u.len());
            }
            if p_next < len && text[p_next] == ',' {
                proof {
                    assert(text@.skip(p_next as int)[0] == text@[p_next as int]);
                }
                let ghost before = ds@;
                let ghost sigv = sig@;
                let ghost vv = v as int;
                ds.push((sig, v));
                proof {
                    assert(text@.skip(p_next as int).drop_first() =~= text@.skip(p_next + 1));
                    assert(sig_pairs(ds@) =~= sig_pairs(before).push((sigv, vv)));
                    if sp_devices(text@.skip(p_next + 1)) is Some {
                        let more = sp_devices(text@.skip(p_next + 1))->Some_0.0;
                        assert(sp_devices(u)->Some_0.0 == seq![(sigv, vv)] + more);
                        assert(sig_pairs(ds@) + more =~= sig_pairs(before) + (seq![(sigv, vv)]
                            + more));
                    }
                }
                cur = p_next + 1;
            } else if p_next < len && text[p_next] == ']' {
                proof {
                    assert(text@.skip(p_next as int)[0] == text@[p_next as int]);
                }
                let ghost before = ds@;
                let ghost sigv = sig@;
                let ghost vv = v as int;
                ds.push((sig, v));
                proof {
                    assert(text@.skip(p_next as int)[0] == ']');
                    assert(sp_devices(u) == Option::Some(
                        (seq![(sigv, vv)], text@.skip(p_next as int).drop_first()),
                    ));
                    assert(text@.skip(p_next as int).drop_first() =~= text@.skip(p_next + 1));
                    assert(sig_pairs(ds@) =~= sig_pairs(before) + seq![(sigv, vv)]);
                }
                cur = p_next + 1;
                done = true;
            } else {
                proof {
                    let w = text@.skip(p_next as int);
                    if w.len() > 0 {
                        assert(w[0] == text@[p_next as int]);
                    }
                }
                return None;
            }
        }
    }
    let p7 = match p_lit(text, cur, "}") {
        Some(p) => p,
        None => {
            return None;
        },
    };
    if p7 != len {
        proof {
            assert(text@.skip(p7 as int).len() > 0);
        }
        return None;
    }
    proof {
        assert(text@.skip(p7 as int).len() == 0);
    }
    Some((q, c, ds))
}

} // verus!
