//! The executable encoder: it writes the canonical wire line of an envelope,
//! character for character equal to `wire::spec_line`.

use vstd::prelude::*;
use vstd::string::StrSliceExecFns;

use crate::protocol::{Body, Message, Responses, Rpc};
use crate::wire::{
    dec_digit, dec_rep, esc_char, esc_text, hex_digit, lemma_esc_text_append, lemma_esc_text_one,
    quoted, spec_array, spec_body, spec_line, tail_items,
};

verus! {

/// Relies on `FromIterator for String`: collecting characters yields the
/// string consisting of exactly those characters in order.
#[verifier::external_body]
pub(crate) fn chars_to_string(v: &Vec<char>) -> (r: String)
    ensures
        r@ == v@,
{
    v.iter().collect()
}

/// Appends every character of `lit` to `out`.
fn push_lit(out: &mut Vec<char>, lit: &str)
    ensures
        final(out)@ == old(out)@ + lit@,
{
    let n = lit.unicode_len();
    let mut i: usize = 0;
    while i < n
        invariant
            n == lit@.len(),
            i <= n,
            out@ == old(out)@ + lit@.take(i as int),
        decreases n - i,
    {
        let c = lit.get_char(i);
        out.push(c);
        proof {
            assert(lit@.take(i + 1) =~= lit@.take(i as int).push(lit@[i as int]));
            assert(old(out)@ + lit@.take(i + 1) =~= (old(out)@ + lit@.take(i as int)).push(
                lit@[i as int],
            ));
        }
        i = i + 1;
    }
    proof {
        assert(lit@.take(n as int) =~= lit@);
    }
}

/// The decimal digit character for `d`.
fn digit_char(d: usize) -> (r: char)
    requires
        d < 10,
    ensures
        r == dec_digit(d as nat),
{
    if d == 0 {
        '0'
    } else if d == 1 {
        '1'
    } else if d == 2 {
        '2'
    } else if d == 3 {
        '3'
    } else if d == 4 {
        '4'
    } else if d == 5 {
        '5'
    } else if d == 6 {
        '6'
    } else if d == 7 {
        '7'
    } else if d == 8 {
        '8'
    } else {
        '9'
    }
}

/// The hexadecimal digit character for `d`.
fn hex_char(d: u32) -> (r: char)
    requires
        d < 16,
    ensures
        r == hex_digit(d as nat),
{
    if d == 0 {
        '0'
    } else if d == 1 {
        '1'
    } else if d == 2 {
        '2'
    } else if d == 3 {
        '3'
    } else if d == 4 {
        '4'
    } else if d == 5 {
        '5'
    } else if d == 6 {
        '6'
    } else if d == 7 {
        '7'
    } else if d == 8 {
        '8'
    } else if d == 9 {
        '9'
    } else if d == 10 {
        'a'
    } else if d == 11 {
        'b'
    } else if d == 12 {
        'c'
    } else if d == 13 {
        'd'
    } else if d == 14 {
        'e'
    } else {
        'f'
    }
}

/// Appends the decimal representation of `n` to `out`.
fn encode_number(out: &mut Vec<char>, n: usize)
    ensures
        final(out)@ == old(out)@ + dec_rep(n as nat),
{
    let mut rev: Vec<char> = Vec::new();
    let mut x: usize = n;
    while x >= 10
        invariant
            dec_rep(n as nat) == dec_rep(x as nat) + rev@.reverse(),
        decreases x,
    {
        let d = x % 10;
        rev.push(digit_char(d));
        proof {
            assert(rev@ =~= rev@.drop_last().push(dec_digit(d as nat)));
            assert(rev@.reverse() =~= seq![dec_digit(d as nat)] + rev@.drop_last().reverse());
            assert(dec_rep(x as nat) =~= dec_rep((x as nat) / 10) + seq![
                dec_digit((x as nat) % 10),
            ]);
            assert(dec_rep((x / 10) as nat) + rev@.reverse() =~= dec_rep(x as nat)
                + rev@.drop_last().reverse());
        }
        x = x / 10;
    }
    out.push(digit_char(x));
    let mut k: usize = rev.len();
    proof {
        assert(rev@.skip(k as int).reverse() =~= Seq::<char>::empty());
        assert(out@ =~= old(out)@ + seq![dec_digit(x as nat)] + rev@.skip(k as int).reverse());
    }
    while k > 0
        invariant
            k <= rev@.len(),
            out@ == old(out)@ + seq![dec_digit(x as nat)] + rev@.skip(k as int).reverse(),
        decreases k,
    {
        k = k - 1;
        let c = rev[k];
        out.push(c);
        proof {
            assert(rev@.skip(k as int) =~= seq![rev@[k as int]] + rev@.skip(k + 1));
            assert(rev@.skip(k as int).reverse() =~= rev@.skip(k + 1).reverse().push(
                rev@[k as int],
            ));
            assert(old(out)@ + seq![dec_digit(x as nat)] + rev@.skip(k as int).reverse() =~= (old(
                out,
            )@ + seq![dec_digit(x as nat)] + rev@.skip(k + 1).reverse()).push(rev@[k as int]));
        }
    }
    proof {
        assert(rev@.skip(0).reverse() =~= rev@.reverse());
        assert(old(out)@ + seq![dec_digit(x as nat)] + rev@.reverse() =~= old(out)@ + (seq![
            dec_digit(x as nat),
        ] + rev@.reverse()));
        assert(seq![dec_digit(x as nat)] =~= dec_rep(x as nat));
    }
}

/// Appends the quoted, escaped form of `s` to `out`.
fn encode_string(out: &mut Vec<char>, s: &str)
    ensures
        final(out)@ == old(out)@ + quoted(s@),
{
    out.push('"');
    let n = s.unicode_len();
    let mut i: usize = 0;
    proof {
        assert(esc_text(s@.take(0)) =~= Seq::<char>::empty());
        assert(out@ =~= old(out)@ + seq!['"'] + esc_text(s@.take(0)));
    }
    while i < n
        invariant
            n == s@.len(),
            i <= n,
            out@ == old(out)@ + seq!['"'] + esc_text(s@.take(i as int)),
        decreases n - i,
    {
        let c = s.get_char(i);
        if c == '"' || c == '\\' {
            out.push('\\');
            out.push(c);
        } else if (c as u32) < 0x20 {
            let cu = c as u32;
            out.push('\\');
            out.push('u');
            out.push('0');
            out.push('0');
            out.push(hex_char(cu / 16));
            out.push(hex_char(cu % 16));
        } else {
            out.push(c);
        }
        proof {
            lemma_esc_text_append(s@.take(i as int), seq![s@[i as int]]);
            lemma_esc_text_one(s@[i as int]);
            assert(s@.take(i + 1) =~= s@.take(i as int) + seq![s@[i as int]]);
            assert(out@ =~= old(out)@ + seq!['"'] + (esc_text(s@.take(i as int)) + esc_char(
                s@[i as int],
            )));
        }
        i = i + 1;
    }
    out.push('"');
    proof {
        assert(s@.take(n as int) =~= s@);
        assert(old(out)@ + seq!['"'] + esc_text(s@) + seq!['"'] =~= old(out)@ + quoted(s@));
    }
}

/// The comma-joined quoted items of a string array, without the brackets.
pub open spec fn comma_items(v: Seq<Seq<char>>) -> Seq<char>
    decreases v.len(),
{
    if v.len() == 0 {
        Seq::empty()
    } else if v.len() == 1 {
        quoted(v[0])
    } else {
        quoted(v[0]) + seq![','] + comma_items(v.drop_first())
    }
}

/// `tail_items` is the comma-joined items followed by the closing bracket.
proof fn lemma_tail_items_eq_comma(v: Seq<Seq<char>>)
    ensures
        tail_items(v) == comma_items(v) + seq![']'],
    decreases v.len(),
{
    if v.len() == 0 {
        assert(tail_items(v) =~= comma_items(v) + seq![']']);
    } else if v.len() == 1 {
        assert(tail_items(v) =~= comma_items(v) + seq![']']);
    } else {
        lemma_tail_items_eq_comma(v.drop_first());
        assert(tail_items(v) =~= comma_items(v) + seq![']']);
    }
}

/// Appending one more item extends the joined items by a comma (except at
/// the front) and the quoted item.
proof fn lemma_comma_items_snoc(w: Seq<Seq<char>>, x: Seq<char>)
    ensures
        w.len() == 0 ==> comma_items(w.push(x)) == quoted(x),
        w.len() > 0 ==> comma_items(w.push(x)) == comma_items(w) + seq![','] + quoted(x),
    decreases w.len(),
{
    if w.len() == 0 {
        assert(w.push(x)[0] =~= x);
        assert(comma_items(w.push(x)) =~= quoted(x));
    } else if w.len() == 1 {
        assert(w.push(x).drop_first() =~= seq![x]);
        assert(comma_items(seq![x]) =~= quoted(x));
        assert(comma_items(w.push(x)) =~= comma_items(w) + seq![','] + quoted(x));
    } else {
        lemma_comma_items_snoc(w.drop_first(), x);
        assert(w.push(x).drop_first() =~= w.drop_first().push(x));
        assert(comma_items(w.push(x)) =~= comma_items(w) + seq![','] + quoted(x));
    }
}

/// Appends the JSON array of the given strings to `out`.
fn encode_array(out: &mut Vec<char>, items: &Vec<String>)
    ensures
        final(out)@ == old(out)@ + spec_array(items.deep_view()),
{
    out.push('[');
    let n = items.len();
    let mut i: usize = 0;
    proof {
        assert(comma_items(items.deep_view().take(0)) =~= Seq::<char>::empty());
        assert(out@ =~= old(out)@ + seq!['['] + comma_items(items.deep_view().take(0)));
    }
    while i < n
        invariant
            n == items@.len(),
            items.deep_view().len() == items@.len(),
            i <= n,
            out@ == old(out)@ + seq!['['] + comma_items(items.deep_view().take(i as int)),
        decreases n - i,
    {
        if i > 0 {
            out.push(',');
        }
        encode_string(out, items[i].as_str());
        proof {
            let dv = items.deep_view();
            assert(dv[i as int] == items@[i as int]@);
            lemma_comma_items_snoc(dv.take(i as int), dv[i as int]);
            assert(dv.take(i + 1) =~= dv.take(i as int).push(dv[i as int]));
            if i == 0 {
                assert(out@ =~= old(out)@ + seq!['['] + comma_items(dv.take(i + 1)));
            } else {
                assert(out@ =~= old(out)@ + seq!['['] + comma_items(dv.take(i + 1)));
            }
        }
        i = i + 1;
    }
    out.push(']');
    proof {
        let dv = items.deep_view();
        assert(dv.take(n as int) =~= dv);
        lemma_tail_items_eq_comma(dv);
        assert(out@ =~= old(out)@ + spec_array(dv));
    }
}

/// Appends the canonical payload object for `b` to `out`.
fn encode_body(out: &mut Vec<char>, b: &Body)
    ensures
        final(out)@ == old(out)@ + spec_body(*b),
{
    match b {
        Body::Rpc(Rpc::Init { msg_id, node_id, node_ids }) => {
            push_lit(out, "{\"type\":\"init\",\"msg_id\":");
            encode_number(out, *msg_id);
            push_lit(out, ",\"node_id\":");
            encode_string(out, node_id.as_str());
            push_lit(out, ",\"node_ids\":");
            encode_array(out, node_ids);
            out.push('}');
            proof {
                assert(out@ =~= old(out)@ + spec_body(*b));
            }
        },
        Body::Rpc(Rpc::Echo { echo, msg_id }) => {
            push_lit(out, "{\"type\":\"echo\",\"echo\":");
            encode_string(out, echo.as_str());
            push_lit(out, ",\"msg_id\":");
            encode_number(out, *msg_id);
            out.push('}');
            proof {
                assert(out@ =~= old(out)@ + spec_body(*b));
            }
        },
        Body::Responses(Responses::InitOk { in_reply_to }) => {
            push_lit(out, "{\"type\":\"init_ok\",\"in_reply_to\":");
            encode_number(out, *in_reply_to);
            out.push('}');
            proof {
                assert(out@ =~= old(out)@ + spec_body(*b));
            }
        },
        Body::Responses(Responses::Error { in_reply_to, code, text }) => {
            push_lit(out, "{\"type\":\"error\",\"in_reply_to\":");
            encode_number(out, *in_reply_to);
            push_lit(out, ",\"code\":");
            encode_number(out, *code as usize);
            push_lit(out, ",\"text\":");
            encode_string(out, text.as_str());
            out.push('}');
            proof {
                assert(out@ =~= old(out)@ + spec_body(*b));
            }
        },
        Body::Responses(Responses::EchoOk { echo, msg_id, in_reply_to }) => {
            push_lit(out, "{\"type\":\"echo_ok\",\"echo\":");
            encode_string(out, echo.as_str());
            push_lit(out, ",\"msg_id\":");
            encode_number(out, *msg_id);
            push_lit(out, ",\"in_reply_to\":");
            encode_number(out, *in_reply_to);
            out.push('}');
            proof {
                assert(out@ =~= old(out)@ + spec_body(*b));
            }
        },
    }
}

/// Serializes an envelope to its canonical wire line.  This cannot fail, and
/// for a well-formed envelope the result decodes back to the same envelope
/// (see `decode`).
pub fn encode(m: &Message) -> (r: String)
    ensures
        r@ == spec_line(*m),
{
    let mut out: Vec<char> = Vec::new();
    push_lit(&mut out, "{\"src\":");
    encode_string(&mut out, m.src.as_str());
    push_lit(&mut out, ",\"dest\":");
    encode_string(&mut out, m.dst.as_str());
    push_lit(&mut out, ",\"body\":");
    encode_body(&mut out, &m.body);
    out.push('}');
    proof {
        assert(out@ =~= spec_line(*m));
    }
    chars_to_string(&out)
}

} // verus!
