//! The canonical wire form of an envelope, at the specification level: a
//! single JSON line with the fields in declaration order, no whitespace,
//! quotes and backslashes escaped with a backslash, and control characters
//! as `\u00..` escapes.  The encoder in `encode` writes exactly this form;
//! the decoder accepts it among all the spellings of the grammar in
//! `grammar`.

use vstd::prelude::*;

use crate::protocol::{msg_eq, response_body_for, Body, Message, Responses, Rpc};

verus! {

/// The hexadecimal digit character for `d` (which is below sixteen).
pub open spec fn hex_digit(d: nat) -> char {
    if d == 0 {
        '0'
    } else if d == 1 {
        '1'
    } else if d == 2 {
        '2'
    } else if d == 3 {
        '3'
    } else if d == 4 {
        '4'
    } else if d == 5 {
        '5'
    } else if d == 6 {
        '6'
    } else if d == 7 {
        '7'
    } else if d == 8 {
        '8'
    } else if d == 9 {
        '9'
    } else if d == 10 {
        'a'
    } else if d == 11 {
        'b'
    } else if d == 12 {
        'c'
    } else if d == 13 {
        'd'
    } else if d == 14 {
        'e'
    } else {
        'f'
    }
}

/// The characters a text character contributes to a JSON string body:
/// quotes and backslashes gain a backslash, control characters become
/// `\u00..`, everything else stands as is.
pub open spec fn esc_char(c: char) -> Seq<char> {
    if c == '"' {
        seq!['\\', '"']
    } else if c == '\\' {
        seq!['\\', '\\']
    } else if (c as u32) < 0x20 {
        seq![
            '\\',
            'u',
            '0',
            '0',
            hex_digit(((c as u32) / 16) as nat),
            hex_digit(((c as u32) % 16) as nat),
        ]
    } else {
        seq![c]
    }
}

/// A whole text, escaped.
pub open spec fn esc_text(t: Seq<char>) -> Seq<char>
    decreases t.len(),
{
    if t.len() == 0 {
        Seq::empty()
    } else {
        esc_char(t[0]) + esc_text(t.drop_first())
    }
}

/// A JSON string: the escaped text between two quotes.
pub open spec fn quoted(t: Seq<char>) -> Seq<char> {
    seq!['"'] + esc_text(t) + seq!['"']
}

/// The decimal digit character for `d` (which is below ten).
pub open spec fn dec_digit(d: nat) -> char {
    if d == 0 {
        '0'
    } else if d == 1 {
        '1'
    } else if d == 2 {
        '2'
    } else if d == 3 {
        '3'
    } else if d == 4 {
        '4'
    } else if d == 5 {
        '5'
    } else if d == 6 {
        '6'
    } else if d == 7 {
        '7'
    } else if d == 8 {
        '8'
    } else {
        '9'
    }
}

/// The numeric value of a decimal digit character (nine for anything that is
/// no digit; it is only applied to digits).
pub open spec fn dval(c: char) -> nat {
    if c == '0' {
        0
    } else if c == '1' {
        1
    } else if c == '2' {
        2
    } else if c == '3' {
        3
    } else if c == '4' {
        4
    } else if c == '5' {
        5
    } else if c == '6' {
        6
    } else if c == '7' {
        7
    } else if c == '8' {
        8
    } else {
        9
    }
}

pub open spec fn is_dec_digit(c: char) -> bool {
    c == '0' || c == '1' || c == '2' || c == '3' || c == '4' || c == '5' || c == '6' || c == '7'
        || c == '8' || c == '9'
}

/// The decimal representation of `n`, most significant digit first, with no
/// leading zero (a lone `0` for zero).
pub open spec fn dec_rep(n: nat) -> Seq<char>
    decreases n,
{
    if n < 10 {
        seq![dec_digit(n)]
    } else {
        dec_rep(n / 10) + seq![dec_digit(n % 10)]
    }
}

/// The value of a digit sequence, read as a decimal number.
pub open spec fn val(ds: Seq<char>) -> nat
    decreases ds.len(),
{
    if ds.len() == 0 {
        0
    } else {
        val(ds.drop_last()) * 10 + dval(ds.last())
    }
}

/// What follows the opening bracket of a JSON array of strings: the quoted
/// items separated by commas, then the closing bracket.
pub open spec fn tail_items(v: Seq<Seq<char>>) -> Seq<char>
    decreases v.len(),
{
    if v.len() == 0 {
        seq![']']
    } else if v.len() == 1 {
        quoted(v[0]) + seq![']']
    } else {
        quoted(v[0]) + seq![','] + tail_items(v.drop_first())
    }
}

/// A JSON array of strings.
pub open spec fn spec_array(v: Seq<Seq<char>>) -> Seq<char> {
    seq!['['] + tail_items(v)
}

/// Escaping distributes over concatenation of texts.
pub proof fn lemma_esc_text_append(a: Seq<char>, b: Seq<char>)
    ensures
        esc_text(a + b) == esc_text(a) + esc_text(b),
    decreases a.len(),
{
    if a.len() == 0 {
        assert(a + b =~= b);
        assert(esc_text(a) + esc_text(b) =~= esc_text(b));
    } else {
        lemma_esc_text_append(a.drop_first(), b);
        assert((a + b).drop_first() =~= a.drop_first() + b);
        assert(esc_char(a[0]) + (esc_text(a.drop_first()) + esc_text(b)) =~= (esc_char(a[0])
            + esc_text(a.drop_first())) + esc_text(b));
    }
}

/// The escaping of a single character is its escape sequence.
pub proof fn lemma_esc_text_one(c: char)
    ensures
        esc_text(seq![c]) == esc_char(c),
{
    assert(seq![c].len() == 1);
    assert(seq![c][0] == c);
    assert(seq![c].drop_first() =~= Seq::<char>::empty());
    assert(esc_text(seq![c]) == esc_char(c) + esc_text(Seq::<char>::empty()));
    assert(esc_char(c) + Seq::<char>::empty() =~= esc_char(c));
}

/// Two adjacent consumed pieces concatenate.
pub proof fn lemma_subrange_extend(u: Seq<char>, i: int, j: int, k: int, a: Seq<char>, b: Seq<char>)
    requires
        0 <= i <= j <= k <= u.len(),
        u.subrange(i, j) == a,
        u.subrange(j, k) == b,
    ensures
        u.subrange(i, k) == a + b,
{
    assert(u.subrange(i, j).len() == j - i);
    assert(u.subrange(j, k).len() == k - j);
    assert(j - i == a.len());
    assert(k - j == b.len());
    assert forall|p: int| 0 <= p < k - i implies u.subrange(i, k)[p] == (a + b)[p] by {
        assert(u.subrange(i, k)[p] == u[i + p]);
        if p < j - i {
            assert(u.subrange(i, j)[p] == u[i + p]);
        } else {
            assert(u.subrange(j, k)[p - (j - i)] == u[i + p]);
        }
    }
    assert(u.subrange(i, k) =~= a + b);
}

/// A consumed concatenation splits into its two adjacent pieces.
pub proof fn lemma_subrange_split(u: Seq<char>, i: int, k: int, a: Seq<char>, b: Seq<char>)
    requires
        0 <= i <= k <= u.len(),
        u.subrange(i, k) == a + b,
    ensures
        k == i + a.len() + b.len(),
        u.subrange(i, i + a.len() as int) == a,
        u.subrange(i + a.len() as int, k) == b,
{
    assert(u.subrange(i, k).len() == k - i);
    assert(k - i == a.len() + b.len());
    assert forall|p: int| 0 <= p < a.len() implies u.subrange(i, i + a.len() as int)[p] == a[p] by {
        assert(u.subrange(i, i + a.len() as int)[p] == u[i + p]);
        assert(u.subrange(i, k)[p] == u[i + p]);
        assert((a + b)[p] == a[p]);
    }
    assert(u.subrange(i, i + a.len() as int) =~= a);
    assert forall|p: int| 0 <= p < b.len() implies u.subrange(i + a.len() as int, k)[p] == b[p] by {
        assert(u.subrange(i + a.len() as int, k)[p] == u[i + a.len() + p]);
        assert(u.subrange(i, k)[a.len() + p] == u[i + a.len() + p]);
        assert((a + b)[a.len() + p] == b[p]);
    }
    assert(u.subrange(i + a.len() as int, k) =~= b);
}

/// Every character of a decimal representation is a digit, the
/// representation is never empty, and only zero's begins with `0`.
pub proof fn lemma_dec_rep_digits(n: nat)
    ensures
        dec_rep(n).len() >= 1,
        forall|i: int| 0 <= i < dec_rep(n).len() ==> is_dec_digit(#[trigger] dec_rep(n)[i]),
        n > 0 ==> dec_rep(n)[0] != '0',
        n < 10 ==> dec_rep(n).len() == 1,
    decreases n,
{
    if n < 10 {
    } else {
        lemma_dec_rep_digits(n / 10);
    }
}

/// Reading the decimal representation of `n` back gives `n`.
pub proof fn lemma_val_dec_rep(n: nat)
    ensures
        val(dec_rep(n)) == n,
    decreases n,
{
    if n < 10 {
        assert(seq![dec_digit(n)].drop_last() =~= Seq::<char>::empty());
        assert(seq![dec_digit(n)].last() == dec_digit(n));
        assert(dval(dec_digit(n)) == n);
        assert(val(Seq::<char>::empty()) == 0);
        assert(val(dec_rep(n)) == val(Seq::<char>::empty()) * 10 + dval(dec_digit(n)));
    } else {
        lemma_val_dec_rep(n / 10);
        let ds = dec_rep(n);
        assert(ds.drop_last() =~= dec_rep(n / 10));
        assert(ds.last() == dec_digit(n % 10));
        assert(dval(dec_digit(n % 10)) == n % 10);
        vstd::arithmetic::div_mod::lemma_fundamental_div_mod(n as int, 10);
    }
}

/// The value of a prefix of a digit run never exceeds the value of the run.
pub proof fn lemma_val_take_le(ds: Seq<char>, i: int)
    requires
        0 <= i <= ds.len(),
    ensures
        val(ds.take(i)) <= val(ds),
    decreases ds.len(),
{
    if i == ds.len() {
        assert(ds.take(i) =~= ds);
    } else {
        assert(ds.len() > 0);
        assert(ds.take(i) =~= ds.drop_last().take(i));
        lemma_val_take_le(ds.drop_last(), i);
    }
}

/// The `type` tag of a payload.
pub open spec fn tag_of(b: Body) -> Seq<char> {
    match b {
        Body::Rpc(Rpc::Init { .. }) => "init"@,
        Body::Rpc(Rpc::Echo { .. }) => "echo"@,
        Body::Responses(Responses::InitOk { .. }) => "init_ok"@,
        Body::Responses(Responses::Error { .. }) => "error"@,
        Body::Responses(Responses::EchoOk { .. }) => "echo_ok"@,
    }
}

/// Each payload variant is named by its tag, and by nothing else: the five
/// tag strings are pairwise distinct.
pub proof fn lemma_tag_names(b: Body)
    ensures
        ((b matches Body::Rpc(Rpc::Init { .. })) <==> tag_of(b) == "init"@),
        ((b matches Body::Rpc(Rpc::Echo { .. })) <==> tag_of(b) == "echo"@),
        ((b matches Body::Responses(Responses::InitOk { .. })) <==> tag_of(b) == "init_ok"@),
        ((b matches Body::Responses(Responses::Error { .. })) <==> tag_of(b) == "error"@),
        ((b matches Body::Responses(Responses::EchoOk { .. })) <==> tag_of(b) == "echo_ok"@),
{
    reveal_strlit("init");
    reveal_strlit("echo");
    reveal_strlit("init_ok");
    reveal_strlit("error");
    reveal_strlit("echo_ok");
    assert("init"@.len() == 4);
    assert("echo"@.len() == 4);
    assert("init_ok"@.len() == 7);
    assert("error"@.len() == 5);
    assert("echo_ok"@.len() == 7);
    assert("init"@[0] == 'i');
    assert("echo"@[0] == 'e');
    assert("init_ok"@[0] == 'i');
    assert("error"@[0] == 'e');
    assert("echo_ok"@[0] == 'e');
    assert("init"@ != "echo"@);
    assert("init_ok"@ != "echo_ok"@);
    assert("error"@[1] == 'r');
    assert("echo"@[1] == 'c');
    assert("echo"@ != "error"@);
}

/// Tag disambiguation: a payload's `type` tag decides its group.  Decoding
/// a line whose tag names a response variant can only yield a response
/// payload, and a request tag only a request payload, even though nothing
/// else marks the outer choice.
pub proof fn lemma_tag_disambiguation(a: Body, b: Body)
    requires
        tag_of(a) == tag_of(b),
    ensures
        (a matches Body::Rpc(_)) <==> (b matches Body::Rpc(_)),
{
    lemma_tag_names(a);
    lemma_tag_names(b);
}

/// The canonical encoding of a payload object.  The `type` tag comes first,
/// a sibling of the variant's own fields, which follow in declaration order.
pub open spec fn spec_body(b: Body) -> Seq<char> {
    match b {
        Body::Rpc(Rpc::Init { msg_id, node_id, node_ids }) => "{\"type\":\"init\",\"msg_id\":"@
            + dec_rep(msg_id as nat) + ",\"node_id\":"@ + quoted(node_id@) + ",\"node_ids\":"@
            + spec_array(node_ids.deep_view()) + seq!['}'],
        Body::Rpc(Rpc::Echo { echo, msg_id }) => "{\"type\":\"echo\",\"echo\":"@ + quoted(echo@)
            + ",\"msg_id\":"@ + dec_rep(msg_id as nat) + seq!['}'],
        Body::Responses(Responses::InitOk { in_reply_to }) => "{\"type\":\"init_ok\",\"in_reply_to\":"@
            + dec_rep(in_reply_to as nat) + seq!['}'],
        Body::Responses(Responses::Error { in_reply_to, code, text }) => "{\"type\":\"error\",\"in_reply_to\":"@
            + dec_rep(in_reply_to as nat) + ",\"code\":"@ + dec_rep(code as nat) + ",\"text\":"@
            + quoted(text@) + seq!['}'],
        Body::Responses(Responses::EchoOk { echo, msg_id, in_reply_to }) => "{\"type\":\"echo_ok\",\"echo\":"@
            + quoted(echo@) + ",\"msg_id\":"@ + dec_rep(msg_id as nat) + ",\"in_reply_to\":"@
            + dec_rep(in_reply_to as nat) + seq!['}'],
    }
}

/// The canonical encoding of an envelope: the object keys are the wire names
/// `src`, `dest` and `body`, in that order.
pub open spec fn spec_line(m: Message) -> Seq<char> {
    "{\"src\":"@ + quoted(m.src@) + ",\"dest\":"@ + quoted(m.dst@) + ",\"body\":"@ + spec_body(
        m.body,
    ) + seq!['}']
}

/// The canonical encoding of the reply that a request envelope is owed:
/// sender and recipient swapped, and the response payload built from the
/// request.  Empty for a response envelope, which is owed no reply.
pub open spec fn spec_reply_line(m: Message) -> Seq<char> {
    match m.body {
        Body::Rpc(rpc) => "{\"src\":"@ + quoted(m.dst@) + ",\"dest\":"@ + quoted(m.src@)
            + ",\"body\":"@ + spec_body(Body::Responses(response_body_for(rpc))) + seq!['}'],
        Body::Responses(_) => Seq::empty(),
    }
}

/// Envelopes equal up to views have the same reply line: the reply depends
/// only on what the wire carries.
pub proof fn lemma_reply_line_eq(a: Message, b: Message)
    requires
        msg_eq(a, b),
    ensures
        spec_reply_line(a) == spec_reply_line(b),
{
    match (a.body, b.body) {
        (Body::Rpc(Rpc::Init { .. }), Body::Rpc(Rpc::Init { .. })) => {},
        (Body::Rpc(Rpc::Echo { .. }), Body::Rpc(Rpc::Echo { .. })) => {},
        (Body::Responses(_), Body::Responses(_)) => {},
        _ => {
            assert(false);
        },
    }
}

/// Field name fidelity: the canonical line of every envelope uses the wire
/// key `src` for the sender and `dest` for the recipient, at the top level
/// of the object, whatever the envelope holds.
pub proof fn lemma_wire_field_names(m: Message)
    ensures
        spec_line(m).subrange(0, "{\"src\":"@.len() as int) == "{\"src\":"@,
        spec_line(m).subrange(
            "{\"src\":"@.len() + quoted(m.src@).len() as int,
            "{\"src\":"@.len() + quoted(m.src@).len() + ",\"dest\":"@.len() as int,
        ) == ",\"dest\":"@,
{
    let s = spec_line(m);
    let a1 = "{\"src\":"@;
    let qs = quoted(m.src@);
    let a2 = ",\"dest\":"@;
    let qd = quoted(m.dst@);
    let a3 = ",\"body\":"@;
    let sb = spec_body(m.body);
    assert(s == a1 + qs + a2 + qd + a3 + sb + seq!['}']);
    assert(s.subrange(0, s.len() as int) =~= s);
    lemma_subrange_split(s, 0, s.len() as int, a1 + qs + a2 + qd + a3 + sb, seq!['}']);
    lemma_subrange_split(s, 0, (a1 + qs + a2 + qd + a3 + sb).len() as int, a1 + qs + a2 + qd + a3, sb);
    lemma_subrange_split(s, 0, (a1 + qs + a2 + qd + a3).len() as int, a1 + qs + a2 + qd, a3);
    lemma_subrange_split(s, 0, (a1 + qs + a2 + qd).len() as int, a1 + qs + a2, qd);
    lemma_subrange_split(s, 0, (a1 + qs + a2).len() as int, a1 + qs, a2);
    lemma_subrange_split(s, 0, (a1 + qs).len() as int, a1, qs);
}

} // verus!
