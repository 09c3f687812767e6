//! The wire grammar, at the specification level: which lines of text denote
//! which envelopes.  The grammar is the JSON the protocol implies —
//! insignificant whitespace anywhere between tokens, the members of an
//! object in any order (each required member exactly once, none other), the
//! standard string escapes, and whitespace after the document.  Reading is
//! deterministic: the functions here consume a sequence of characters from
//! a position and give the one value it spells, or nothing.  The executable
//! decoder is specified as returning exactly what these functions denote;
//! the canonical encoder's output is one spelling among many, and the
//! lemmas here show that each canonical token reads back as itself.

use vstd::prelude::*;

use crate::protocol::{body_eq, msg_eq, Body, Message, Responses, Rpc};
use crate::wire::{
    dec_rep, dval, esc_char, esc_text, hex_digit, is_dec_digit, lemma_dec_rep_digits,
    lemma_subrange_extend, lemma_subrange_split, lemma_val_dec_rep, quoted, spec_array, spec_body,
    spec_line, tail_items, val,
};

verus! {

/// JSON's insignificant whitespace.
pub open spec fn is_ws(c: char) -> bool {
    c == ' ' || c == '\t' || c == '\n' || c == '\r'
}

/// The first position at or after `j` that does not hold whitespace.
pub open spec fn ws_end(s: Seq<char>, j: int) -> int
    decreases s.len() - j,
{
    if 0 <= j < s.len() && is_ws(s[j]) {
        ws_end(s, j + 1)
    } else {
        j
    }
}

/// The first position at or after `j` that does not hold a decimal digit.
pub open spec fn digits_end(s: Seq<char>, j: int) -> int
    decreases s.len() - j,
{
    if 0 <= j < s.len() && is_dec_digit(s[j]) {
        digits_end(s, j + 1)
    } else {
        j
    }
}

pub proof fn lemma_ws_end_bounds(s: Seq<char>, j: int)
    requires
        0 <= j <= s.len(),
    ensures
        j <= ws_end(s, j) <= s.len(),
    decreases s.len() - j,
{
    if j < s.len() && is_ws(s[j]) {
        lemma_ws_end_bounds(s, j + 1);
    }
}

pub proof fn lemma_digits_end_bounds(s: Seq<char>, j: int)
    requires
        0 <= j <= s.len(),
    ensures
        j <= digits_end(s, j) <= s.len(),
    decreases s.len() - j,
{
    if j < s.len() && is_dec_digit(s[j]) {
        lemma_digits_end_bounds(s, j + 1);
    }
}

/// A run of digits closed by the end or a non-digit is where the digits
/// end.
pub proof fn lemma_digits_end_run(s: Seq<char>, j: int, k: int)
    requires
        0 <= j <= k <= s.len(),
        forall|p: int| j <= p < k ==> is_dec_digit(#[trigger] s[p]),
        k == s.len() || !is_dec_digit(s[k]),
    ensures
        digits_end(s, j) == k,
    decreases k - j,
{
    if j < k {
        lemma_digits_end_run(s, j + 1, k);
    }
}

/// The character a single-letter escape stands for.
pub open spec fn simple_esc(e: char) -> Option<char> {
    if e == '"' {
        Some('"')
    } else if e == '\\' {
        Some('\\')
    } else if e == '/' {
        Some('/')
    } else if e == 'b' {
        Some('\u{0008}')
    } else if e == 'f' {
        Some('\u{000C}')
    } else if e == 'n' {
        Some('\n')
    } else if e == 'r' {
        Some('\r')
    } else if e == 't' {
        Some('\t')
    } else {
        None
    }
}

pub open spec fn is_hex_digit(c: char) -> bool {
    is_dec_digit(c) || c == 'a' || c == 'b' || c == 'c' || c == 'd' || c == 'e' || c == 'f'
        || c == 'A' || c == 'B' || c == 'C' || c == 'D' || c == 'E' || c == 'F'
}

/// The value of a hexadecimal digit character.
pub open spec fn hval(c: char) -> u32 {
    if c == '0' {
        0
    } else if c == '1' {
        1
    } else if c == '2' {
        2
    } else if c == '3' {
        3
    } else if c == '4' {
        4
    } else if c == '5' {
        5
    } else if c == '6' {
        6
    } else if c == '7' {
        7
    } else if c == '8' {
        8
    } else if c == '9' {
        9
    } else if c == 'a' || c == 'A' {
        10
    } else if c == 'b' || c == 'B' {
        11
    } else if c == 'c' || c == 'C' {
        12
    } else if c == 'd' || c == 'D' {
        13
    } else if c == 'e' || c == 'E' {
        14
    } else {
        15
    }
}

/// The code of the four hexadecimal digits at `j`.
pub open spec fn hex4(s: Seq<char>, j: int) -> u32 {
    (hval(s[j]) * 4096 + hval(s[j + 1]) * 256 + hval(s[j + 2]) * 16 + hval(s[j + 3])) as u32
}

/// A `\u` escape this grammar reads: a code in the basic plane that is no
/// surrogate.  (A character beyond the basic plane stands unescaped.)
pub open spec fn plane_ok(v: u32) -> bool {
    v <= 0xFFFF && !(0xD800 <= v && v < 0xE000)
}

/// Reads a string body from `j` up to and including the closing quote:
/// the text it spells and the position after the quote.
pub open spec fn sp_str_body(s: Seq<char>, j: int) -> Option<(Seq<char>, int)>
    decreases s.len() - j,
{
    if !(0 <= j < s.len()) {
        None
    } else if s[j] == '"' {
        Some((Seq::empty(), j + 1))
    } else if s[j] == '\\' {
        if j + 1 >= s.len() {
            None
        } else if s[j + 1] == 'u' {
            if j + 6 > s.len() {
                None
            } else if !(is_hex_digit(s[j + 2]) && is_hex_digit(s[j + 3]) && is_hex_digit(s[j + 4])
                && is_hex_digit(s[j + 5])) {
                None
            } else if !plane_ok(hex4(s, j + 2)) {
                None
            } else {
                match sp_str_body(s, j + 6) {
                    Some((t, k)) => Some((seq![hex4(s, j + 2) as char] + t, k)),
                    None => None,
                }
            }
        } else {
            match simple_esc(s[j + 1]) {
                Some(c) => match sp_str_body(s, j + 2) {
                    Some((t, k)) => Some((seq![c] + t, k)),
                    None => None,
                },
                None => None,
            }
        }
    } else if (s[j] as u32) >= 0x20 {
        match sp_str_body(s, j + 1) {
            Some((t, k)) => Some((seq![s[j]] + t, k)),
            None => None,
        }
    } else {
        None
    }
}

/// Reads a JSON string at `j`: its text and the position after it.
pub open spec fn sp_str(s: Seq<char>, j: int) -> Option<(Seq<char>, int)> {
    if 0 <= j < s.len() && s[j] == '"' {
        sp_str_body(s, j + 1)
    } else {
        None
    }
}

/// Reads a JSON integer at `j`: non-negative, no redundant leading zero,
/// and within the machine's range.
pub open spec fn sp_num(s: Seq<char>, j: int) -> Option<(usize, int)> {
    if !(0 <= j < s.len()) || !is_dec_digit(s[j]) {
        None
    } else if s[j] == '0' && j + 1 < s.len() && is_dec_digit(s[j + 1]) {
        None
    } else {
        let k = digits_end(s, j);
        let v = val(s.subrange(j, k));
        if v > usize::MAX {
            None
        } else {
            Some((v as usize, k))
        }
    }
}

/// Reads the items of a string array from the first item on: the texts and
/// the position after the closing bracket.  (The inner position test only
/// bounds the recursion; a string consumes at least two characters, so it
/// never fails on a read that got this far.)
pub open spec fn sp_items(s: Seq<char>, j: int) -> Option<(Seq<Seq<char>>, int)>
    decreases s.len() - j,
{
    match sp_str(s, j) {
        None => None,
        Some((t, k)) => {
            let k1 = ws_end(s, k);
            if !(0 <= k1 < s.len()) {
                None
            } else if s[k1] == ']' {
                Some((seq![t], k1 + 1))
            } else if s[k1] == ',' {
                let k2 = ws_end(s, k1 + 1);
                if !(j < k2 <= s.len()) {
                    None
                } else {
                    match sp_items(s, k2) {
                        Some((v, k3)) => Some((seq![t] + v, k3)),
                        None => None,
                    }
                }
            } else {
                None
            }
        },
    }
}

/// Reads a JSON array of strings at `j`.
pub open spec fn sp_arr(s: Seq<char>, j: int) -> Option<(Seq<Seq<char>>, int)> {
    if !(0 <= j < s.len()) || s[j] != '[' {
        None
    } else {
        let j1 = ws_end(s, j + 1);
        if !(0 <= j1 < s.len()) {
            None
        } else if s[j1] == ']' {
            Some((Seq::empty(), j1 + 1))
        } else {
            sp_items(s, j1)
        }
    }
}

/// The payload members a line can set, each at most once.
pub ghost struct Fields {
    pub tag: Option<Seq<char>>,
    pub msg_id: Option<usize>,
    pub node_id: Option<Seq<char>>,
    pub node_ids: Option<Seq<Seq<char>>>,
    pub echo: Option<Seq<char>>,
    pub in_reply_to: Option<usize>,
    pub code: Option<usize>,
    pub text: Option<Seq<char>>,
}

pub open spec fn no_fields() -> Fields {
    Fields {
        tag: None,
        msg_id: None,
        node_id: None,
        node_ids: None,
        echo: None,
        in_reply_to: None,
        code: None,
        text: None,
    }
}

/// Reads the members of a payload object from the first key on (whitespace
/// already passed), folding them into `acc`; a key may not repeat and no
/// other key is known.  (The inner position test only bounds the
/// recursion.)
pub open spec fn sp_body_members(s: Seq<char>, j: int, acc: Fields) -> Option<(Fields, int)>
    decreases s.len() - j,
{
    match sp_str(s, j) {
        None => None,
        Some((key, k)) => {
            let k1 = ws_end(s, k);
            if !(0 <= k1 < s.len() && s[k1] == ':') {
                None
            } else {
                let k2 = ws_end(s, k1 + 1);
                let stepped: Option<(Fields, int)> = if key == "type"@ {
                    if acc.tag is Some {
                        None
                    } else {
                        match sp_str(s, k2) {
                            Some((t, k3)) => Some((Fields { tag: Some(t), ..acc }, k3)),
                            None => None,
                        }
                    }
                } else if key == "msg_id"@ {
                    if acc.msg_id is Some {
                        None
                    } else {
                        match sp_num(s, k2) {
                            Some((n, k3)) => Some((Fields { msg_id: Some(n), ..acc }, k3)),
                            None => None,
                        }
                    }
                } else if key == "node_id"@ {
                    if acc.node_id is Some {
                        None
                    } else {
                        match sp_str(s, k2) {
                            Some((t, k3)) => Some((Fields { node_id: Some(t), ..acc }, k3)),
                            None => None,
                        }
                    }
                } else if key == "node_ids"@ {
                    if acc.node_ids is Some {
                        None
                    } else {
                        match sp_arr(s, k2) {
                            Some((v, k3)) => Some((Fields { node_ids: Some(v), ..acc }, k3)),
                            None => None,
                        }
                    }
                } else if key == "echo"@ {
                    if acc.echo is Some {
                        None
                    } else {
                        match sp_str(s, k2) {
                            Some((t, k3)) => Some((Fields { echo: Some(t), ..acc }, k3)),
                            None => None,
                        }
                    }
                } else if key == "in_reply_to"@ {
                    if acc.in_reply_to is Some {
                        None
                    } else {
                        match sp_num(s, k2) {
                            Some((n, k3)) => Some((Fields { in_reply_to: Some(n), ..acc }, k3)),
                            None => None,
                        }
                    }
                } else if key == "code"@ {
                    if acc.code is Some {
                        None
                    } else {
                        match sp_num(s, k2) {
                            Some((n, k3)) => Some((Fields { code: Some(n), ..acc }, k3)),
                            None => None,
                        }
                    }
                } else if key == "text"@ {
                    if acc.text is Some {
                        None
                    } else {
                        match sp_str(s, k2) {
                            Some((t, k3)) => Some((Fields { text: Some(t), ..acc }, k3)),
                            None => None,
                        }
                    }
                } else {
                    None
                };
                match stepped {
                    None => None,
                    Some((acc2, k3)) => {
                        let k4 = ws_end(s, k3);
                        if !(0 <= k4 < s.len()) {
                            None
                        } else if s[k4] == '}' {
                            Some((acc2, k4 + 1))
                        } else if s[k4] == ',' {
                            let k5 = ws_end(s, k4 + 1);
                            if !(j < k5 <= s.len()) {
                                None
                            } else {
                                sp_body_members(s, k5, acc2)
                            }
                        } else {
                            None
                        }
                    },
                }
            }
        },
    }
}

/// Reads a payload object at `j`: the members it sets and the position
/// after the closing brace.
pub open spec fn sp_body_obj(s: Seq<char>, j: int) -> Option<(Fields, int)> {
    if !(0 <= j < s.len()) || s[j] != '{' {
        None
    } else {
        sp_body_members(s, ws_end(s, j + 1), no_fields())
    }
}

/// The envelope members a line can set, each at most once.
pub ghost struct Env {
    pub src: Option<Seq<char>>,
    pub dst: Option<Seq<char>>,
    pub body: Option<Fields>,
}

/// Reads the members of an envelope object from the first key on.  The
/// recipient's wire key is `dest`.  (The inner position test only bounds
/// the recursion.)
pub open spec fn sp_env_members(s: Seq<char>, j: int, acc: Env) -> Option<(Env, int)>
    decreases s.len() - j,
{
    match sp_str(s, j) {
        None => None,
        Some((key, k)) => {
            let k1 = ws_end(s, k);
            if !(0 <= k1 < s.len() && s[k1] == ':') {
                None
            } else {
                let k2 = ws_end(s, k1 + 1);
                let stepped: Option<(Env, int)> = if key == "src"@ {
                    if acc.src is Some {
                        None
                    } else {
                        match sp_str(s, k2) {
                            Some((t, k3)) => Some((Env { src: Some(t), ..acc }, k3)),
                            None => None,
                        }
                    }
                } else if key == "dest"@ {
                    if acc.dst is Some {
                        None
                    } else {
                        match sp_str(s, k2) {
                            Some((t, k3)) => Some((Env { dst: Some(t), ..acc }, k3)),
                            None => None,
                        }
                    }
                } else if key == "body"@ {
                    if acc.body is Some {
                        None
                    } else {
                        match sp_body_obj(s, k2) {
                            Some((f, k3)) => Some((Env { body: Some(f), ..acc }, k3)),
                            None => None,
                        }
                    }
                } else {
                    None
                };
                match stepped {
                    None => None,
                    Some((acc2, k3)) => {
                        let k4 = ws_end(s, k3);
                        if !(0 <= k4 < s.len()) {
                            None
                        } else if s[k4] == '}' {
                            Some((acc2, k4 + 1))
                        } else if s[k4] == ',' {
                            let k5 = ws_end(s, k4 + 1);
                            if !(j < k5 <= s.len()) {
                                None
                            } else {
                                sp_env_members(s, k5, acc2)
                            }
                        } else {
                            None
                        }
                    },
                }
            }
        },
    }
}

/// Whether the members a payload object set are exactly one variant's
/// members, with an error code within sixteen bits.
pub open spec fn valid_fields(f: Fields) -> bool {
    match f.tag {
        None => false,
        Some(tag) => if tag == "init"@ {
            f.msg_id is Some && f.node_id is Some && f.node_ids is Some && f.echo is None
                && f.in_reply_to is None && f.code is None && f.text is None
        } else if tag == "echo"@ {
            f.echo is Some && f.msg_id is Some && f.node_id is None && f.node_ids is None
                && f.in_reply_to is None && f.code is None && f.text is None
        } else if tag == "init_ok"@ {
            f.in_reply_to is Some && f.msg_id is None && f.node_id is None && f.node_ids is None
                && f.echo is None && f.code is None && f.text is None
        } else if tag == "error"@ {
            f.in_reply_to is Some && f.code is Some && f.code.unwrap() <= 65535 && f.text is Some
                && f.msg_id is None && f.node_id is None && f.node_ids is None && f.echo is None
        } else if tag == "echo_ok"@ {
            f.echo is Some && f.msg_id is Some && f.in_reply_to is Some && f.node_id is None
                && f.node_ids is None && f.code is None && f.text is None
        } else {
            false
        },
    }
}

/// Reads one whole line: the sender's and recipient's names and the payload
/// members, provided the envelope sets exactly `src`, `dest` and `body`,
/// the payload is exactly one variant, and only whitespace follows.
pub open spec fn sp_line(s: Seq<char>) -> Option<(Seq<char>, Seq<char>, Fields)> {
    let j0 = ws_end(s, 0);
    if !(0 <= j0 < s.len()) || s[j0] != '{' {
        None
    } else {
        match sp_env_members(s, ws_end(s, j0 + 1), Env { src: None, dst: None, body: None }) {
            None => None,
            Some((env, k)) => {
                if ws_end(s, k) != s.len() {
                    None
                } else {
                    match (env.src, env.dst, env.body) {
                        (Some(sv), Some(dv), Some(f)) => if valid_fields(f) {
                            Some((sv, dv, f))
                        } else {
                            None
                        },
                        _ => None,
                    }
                }
            },
        }
    }
}

/// The members that spell a given payload.
pub open spec fn body_fields(b: Body) -> Fields {
    match b {
        Body::Rpc(Rpc::Init { msg_id, node_id, node_ids }) => Fields {
            tag: Some("init"@),
            msg_id: Some(msg_id),
            node_id: Some(node_id@),
            node_ids: Some(node_ids.deep_view()),
            ..no_fields()
        },
        Body::Rpc(Rpc::Echo { echo, msg_id }) => Fields {
            tag: Some("echo"@),
            echo: Some(echo@),
            msg_id: Some(msg_id),
            ..no_fields()
        },
        Body::Responses(Responses::InitOk { in_reply_to }) => Fields {
            tag: Some("init_ok"@),
            in_reply_to: Some(in_reply_to),
            ..no_fields()
        },
        Body::Responses(Responses::Error { in_reply_to, code, text }) => Fields {
            tag: Some("error"@),
            in_reply_to: Some(in_reply_to),
            code: Some(code as usize),
            text: Some(text@),
            ..no_fields()
        },
        Body::Responses(Responses::EchoOk { echo, msg_id, in_reply_to }) => Fields {
            tag: Some("echo_ok"@),
            echo: Some(echo@),
            msg_id: Some(msg_id),
            in_reply_to: Some(in_reply_to),
            ..no_fields()
        },
    }
}

/// `s` denotes the envelope `m`: the line reads as exactly `m`'s sender,
/// recipient and payload members.
pub open spec fn denotes(s: Seq<char>, m: Message) -> bool {
    sp_line(s) == Some((m.src@, m.dst@, body_fields(m.body)))
}

/// A text of printable characters without quote or backslash escapes to
/// itself.
pub proof fn lemma_esc_text_plain(t: Seq<char>)
    requires
        forall|i: int| 0 <= i < t.len() ==> (#[trigger] t[i] as u32) >= 0x20 && t[i] != '"'
            && t[i] != '\\',
    ensures
        esc_text(t) == t,
    decreases t.len(),
{
    if t.len() == 0 {
        assert(esc_text(t) =~= t);
    } else {
        lemma_esc_text_plain(t.drop_first());
        assert(esc_char(t[0]) =~= seq![t[0]]);
        assert(esc_text(t) =~= t);
    }
}

/// Hexadecimal digit characters carry their value.
pub proof fn lemma_hex_digit_facts(d: nat)
    requires
        d < 16,
    ensures
        is_hex_digit(hex_digit(d)),
        hval(hex_digit(d)) == d,
{
}

/// A canonically escaped string body followed by its closing quote reads
/// back as exactly the text it encodes.
pub proof fn lemma_sp_body_canonical(s: Seq<char>, j: int, t: Seq<char>)
    requires
        0 <= j,
        j + esc_text(t).len() + 1 <= s.len(),
        s.subrange(j, j + esc_text(t).len() as int + 1) == esc_text(t) + seq!['"'],
    ensures
        sp_str_body(s, j) == Some((t, j + esc_text(t).len() + 1)),
    decreases t.len(),
{
    let e = esc_text(t) + seq!['"'];
    assert forall|p: int| 0 <= p < e.len() implies s[j + p] == e[p] by {
        assert(s.subrange(j, j + esc_text(t).len() as int + 1)[p] == s[j + p]);
    }
    if t.len() == 0 {
        assert(esc_text(t) =~= Seq::<char>::empty());
        assert(s.subrange(j, j + esc_text(t).len() as int + 1)[0] == s[j]);
        assert(e[0] == '"');
        assert(s[j] == '"');
        assert(sp_str_body(s, j) == Some((Seq::<char>::empty(), j + 1)));
        assert(Seq::<char>::empty() =~= t);
    } else {
        let c = t[0];
        let t2 = t.drop_first();
        assert(esc_text(t) == esc_char(c) + esc_text(t2));
        let rest = esc_text(t2) + seq!['"'];
        if c == '"' || c == '\\' {
            assert(esc_char(c) =~= seq!['\\', c]);
            assert(e =~= seq!['\\', c] + rest);
            lemma_subrange_split(s, j, j + esc_text(t).len() as int + 1, seq!['\\', c], rest);
            assert(s[j] == '\\') by {
                assert(s.subrange(j, j + 2)[0] == s[j]);
            }
            assert(s[j + 1] == c) by {
                assert(s.subrange(j, j + 2)[1] == s[j + 1]);
            }
            assert(c != 'u');
            assert(simple_esc(c) == Some(c));
            lemma_sp_body_canonical(s, j + 2, t2);
            assert(seq![c] + t2 =~= t);
        } else if (c as u32) < 0x20 {
            let cu = c as u32;
            let h1 = hex_digit((cu / 16) as nat);
            let h2 = hex_digit((cu % 16) as nat);
            assert(esc_char(c) =~= seq!['\\', 'u', '0', '0', h1, h2]);
            assert(e =~= seq!['\\', 'u', '0', '0', h1, h2] + rest);
            lemma_subrange_split(
                s,
                j,
                j + esc_text(t).len() as int + 1,
                seq!['\\', 'u', '0', '0', h1, h2],
                rest,
            );
            assert forall|p: int| 0 <= p < 6 implies s[j + p] == seq![
                '\\',
                'u',
                '0',
                '0',
                h1,
                h2,
            ][p] by {
                assert(s.subrange(j, j + 6)[p] == s[j + p]);
            }
            assert(s[j] == '\\' && s[j + 1] == 'u' && s[j + 2] == '0' && s[j + 3] == '0' && s[j
                + 4] == h1 && s[j + 5] == h2);
            lemma_hex_digit_facts((cu / 16) as nat);
            lemma_hex_digit_facts((cu % 16) as nat);
            assert(is_hex_digit('0') && hval('0') == 0);
            vstd::arithmetic::div_mod::lemma_fundamental_div_mod(cu as int, 16);
            assert(hex4(s, j + 2) == cu);
            assert(plane_ok(cu));
            vstd::utf8::char_u32_cast(c, cu);
            assert((hex4(s, j + 2) as char) == c);
            lemma_sp_body_canonical(s, j + 6, t2);
            assert(seq![c] + t2 =~= t);
        } else {
            assert(esc_char(c) =~= seq![c]);
            assert(e =~= seq![c] + rest);
            lemma_subrange_split(s, j, j + esc_text(t).len() as int + 1, seq![c], rest);
            assert(s[j] == c) by {
                assert(s.subrange(j, j + 1)[0] == s[j]);
            }
            lemma_sp_body_canonical(s, j + 1, t2);
            assert(seq![c] + t2 =~= t);
        }
    }
}

/// A canonically quoted string reads back as exactly its text.
pub proof fn lemma_sp_str_canonical(s: Seq<char>, j: int, t: Seq<char>)
    requires
        0 <= j,
        j + quoted(t).len() <= s.len(),
        s.subrange(j, j + quoted(t).len() as int) == quoted(t),
    ensures
        sp_str(s, j) == Some((t, j + quoted(t).len())),
{
    assert(quoted(t) =~= seq!['"'] + (esc_text(t) + seq!['"']));
    lemma_subrange_split(s, j, j + quoted(t).len() as int, seq!['"'], esc_text(t) + seq!['"']);
    assert(s.subrange(j, j + 1)[0] == s[j]);
    assert(s[j] == '"');
    lemma_sp_body_canonical(s, j + 1, t);
}

/// A canonical decimal representation followed by a non-digit reads back
/// as exactly its number.
pub proof fn lemma_sp_num_canonical(s: Seq<char>, j: int, n: usize)
    requires
        0 <= j,
        j + dec_rep(n as nat).len() <= s.len(),
        s.subrange(j, j + dec_rep(n as nat).len() as int) == dec_rep(n as nat),
        j + dec_rep(n as nat).len() == s.len() || !is_dec_digit(s[j + dec_rep(n as nat).len()]),
    ensures
        sp_num(s, j) == Some((n, j + dec_rep(n as nat).len())),
{
    let ds = dec_rep(n as nat);
    lemma_dec_rep_digits(n as nat);
    assert forall|p: int| j <= p < j + ds.len() implies is_dec_digit(s[p]) by {
        assert(s.subrange(j, j + ds.len() as int)[p - j] == s[p]);
        assert(is_dec_digit(ds[p - j]));
    }
    assert(s[j] == ds[0]) by {
        assert(s.subrange(j, j + ds.len() as int)[0] == s[j]);
    }
    assert(is_dec_digit(s[j]));
    if s[j] == '0' {
        assert(n == 0);
        assert(ds.len() == 1);
        assert(!(j + 1 < s.len() && is_dec_digit(s[j + 1])));
    } else {
        assert(!(s[j] == '0' && j + 1 < s.len() && is_dec_digit(s[j + 1])));
    }
    lemma_digits_end_run(s, j, j + ds.len());
    assert(s.subrange(j, digits_end(s, j)) =~= ds);
    lemma_val_dec_rep(n as nat);
}

/// A canonical string array's items read back as exactly those items.
pub proof fn lemma_sp_items_canonical(s: Seq<char>, j: int, v: Seq<Seq<char>>)
    requires
        0 <= j,
        v.len() >= 1,
        j + tail_items(v).len() <= s.len(),
        s.subrange(j, j + tail_items(v).len() as int) == tail_items(v),
    ensures
        sp_items(s, j) == Some((v, j + tail_items(v).len())),
    decreases v.len(),
{
    let tv = tail_items(v);
    if v.len() == 1 {
        assert(tv == quoted(v[0]) + seq![']']);
        lemma_subrange_split(s, j, j + tv.len() as int, quoted(v[0]), seq![']']);
        lemma_sp_str_canonical(s, j, v[0]);
        let k = j + quoted(v[0]).len() as int;
        assert(s.subrange(k, j + tv.len() as int)[0] == s[k]);
        assert(s[k] == ']');
        assert(!is_ws(']'));
        assert(ws_end(s, k) == k);
        assert(seq![v[0]] =~= v);
    } else {
        assert(tv == quoted(v[0]) + seq![','] + tail_items(v.drop_first()));
        assert(tv =~= quoted(v[0]) + (seq![','] + tail_items(v.drop_first())));
        lemma_subrange_split(
            s,
            j,
            j + tv.len() as int,
            quoted(v[0]),
            seq![','] + tail_items(v.drop_first()),
        );
        lemma_sp_str_canonical(s, j, v[0]);
        let k = j + quoted(v[0]).len() as int;
        lemma_subrange_split(s, k, j + tv.len() as int, seq![','], tail_items(v.drop_first()));
        assert(s.subrange(k, k + 1)[0] == s[k]);
        assert(s[k] == ',');
        assert(!is_ws(','));
        assert(ws_end(s, k) == k);
        let k2 = k + 1;
        let rest = v.drop_first();
        assert(tail_items(rest)[0] == quoted(rest[0])[0]) by {
            if rest.len() == 1 {
            } else {
            }
        }
        assert(quoted(rest[0])[0] == '"');
        assert(s.subrange(k2, j + tv.len() as int)[0] == s[k2]);
        assert(s[k2] == '"');
        assert(!is_ws('"'));
        assert(ws_end(s, k2) == k2);
        lemma_sp_items_canonical(s, k2, rest);
        assert(seq![v[0]] + rest =~= v);
    }
}

/// A canonical string array reads back as exactly its items.
pub proof fn lemma_sp_arr_canonical(s: Seq<char>, j: int, v: Seq<Seq<char>>)
    requires
        0 <= j,
        j + spec_array(v).len() <= s.len(),
        s.subrange(j, j + spec_array(v).len() as int) == spec_array(v),
    ensures
        sp_arr(s, j) == Some((v, j + spec_array(v).len())),
{
    assert(spec_array(v) == seq!['['] + tail_items(v));
    lemma_subrange_split(s, j, j + spec_array(v).len() as int, seq!['['], tail_items(v));
    assert(s.subrange(j, j + 1)[0] == s[j]);
    assert(s[j] == '[');
    let j1 = j + 1;
    if v.len() == 0 {
        assert(tail_items(v) =~= seq![']']);
        assert(s.subrange(j1, j + spec_array(v).len() as int)[0] == s[j1]);
        assert(s[j1] == ']');
        assert(!is_ws(']'));
        assert(ws_end(s, j1) == j1);
        assert(Seq::<Seq<char>>::empty() =~= v);
    } else {
        assert(tail_items(v)[0] == quoted(v[0])[0]) by {
            if v.len() == 1 {
            } else {
            }
        }
        assert(s.subrange(j1, j + spec_array(v).len() as int)[0] == s[j1]);
        assert(s[j1] == '"');
        assert(!is_ws('"'));
        assert(ws_end(s, j1) == j1);
        lemma_sp_items_canonical(s, j1, v);
    }
}

/// The member keys of the wire format are pairwise distinct texts of
/// printable characters.
proof fn lemma_keys()
    ensures
        "type"@.len() == 4 && "msg_id"@.len() == 6 && "node_id"@.len() == 7 && "node_ids"@.len()
            == 8 && "echo"@.len() == 4 && "in_reply_to"@.len() == 11 && "code"@.len() == 4
            && "text"@.len() == 4 && "src"@.len() == 3 && "dest"@.len() == 4 && "body"@.len() == 4,
        "type"@ != "echo"@ && "type"@ != "code"@ && "type"@ != "text"@ && "echo"@ != "code"@
            && "echo"@ != "text"@ && "code"@ != "text"@,
        "dest"@ != "body"@,
        esc_text("type"@) == "type"@ && esc_text("msg_id"@) == "msg_id"@ && esc_text("node_id"@)
            == "node_id"@ && esc_text("node_ids"@) == "node_ids"@ && esc_text("echo"@) == "echo"@
            && esc_text("in_reply_to"@) == "in_reply_to"@ && esc_text("code"@) == "code"@
            && esc_text("text"@) == "text"@ && esc_text("src"@) == "src"@ && esc_text("dest"@)
            == "dest"@ && esc_text("body"@) == "body"@,
        esc_text("init"@) == "init"@ && esc_text("init_ok"@) == "init_ok"@ && esc_text("error"@)
            == "error"@ && esc_text("echo_ok"@) == "echo_ok"@,
        quoted("type"@) == seq!['"'] + "type"@ + seq!['"'],
        quoted("msg_id"@) == seq!['"'] + "msg_id"@ + seq!['"'],
        quoted("node_id"@) == seq!['"'] + "node_id"@ + seq!['"'],
        quoted("node_ids"@) == seq!['"'] + "node_ids"@ + seq!['"'],
        quoted("echo"@) == seq!['"'] + "echo"@ + seq!['"'],
        quoted("in_reply_to"@) == seq!['"'] + "in_reply_to"@ + seq!['"'],
        quoted("code"@) == seq!['"'] + "code"@ + seq!['"'],
        quoted("text"@) == seq!['"'] + "text"@ + seq!['"'],
        quoted("src"@) == seq!['"'] + "src"@ + seq!['"'],
        quoted("dest"@) == seq!['"'] + "dest"@ + seq!['"'],
        quoted("body"@) == seq!['"'] + "body"@ + seq!['"'],
        quoted("init"@) == seq!['"'] + "init"@ + seq!['"'],
        quoted("init_ok"@) == seq!['"'] + "init_ok"@ + seq!['"'],
        quoted("error"@) == seq!['"'] + "error"@ + seq!['"'],
        quoted("echo_ok"@) == seq!['"'] + "echo_ok"@ + seq!['"'],
{
    reveal_strlit("type");
    reveal_strlit("msg_id");
    reveal_strlit("node_id");
    reveal_strlit("node_ids");
    reveal_strlit("echo");
    reveal_strlit("in_reply_to");
    reveal_strlit("code");
    reveal_strlit("text");
    reveal_strlit("src");
    reveal_strlit("dest");
    reveal_strlit("body");
    reveal_strlit("init");
    reveal_strlit("init_ok");
    reveal_strlit("error");
    reveal_strlit("echo_ok");
    assert("type"@[0] == 't' && "echo"@[0] == 'e' && "code"@[0] == 'c' && "text"@[0] == 't');
    assert("type"@[1] == 'y' && "text"@[1] == 'e');
    assert("dest"@[0] == 'd' && "body"@[0] == 'b');
    lemma_esc_text_plain("type"@);
    lemma_esc_text_plain("msg_id"@);
    lemma_esc_text_plain("node_id"@);
    lemma_esc_text_plain("node_ids"@);
    lemma_esc_text_plain("echo"@);
    lemma_esc_text_plain("in_reply_to"@);
    lemma_esc_text_plain("code"@);
    lemma_esc_text_plain("text"@);
    lemma_esc_text_plain("src"@);
    lemma_esc_text_plain("dest"@);
    lemma_esc_text_plain("body"@);
    lemma_esc_text_plain("init"@);
    lemma_esc_text_plain("init_ok"@);
    lemma_esc_text_plain("error"@);
    lemma_esc_text_plain("echo_ok"@);
}

/// Payloads that the same members spell are equal up to views.
pub proof fn lemma_fields_determine_body(a: Body, b: Body)
    requires
        body_fields(a) == body_fields(b),
    ensures
        body_eq(a, b),
{
    reveal_strlit("init");
    reveal_strlit("echo");
    reveal_strlit("init_ok");
    reveal_strlit("error");
    reveal_strlit("echo_ok");
    assert("init"@.len() == 4);
    assert("echo"@.len() == 4);
    assert("init_ok"@.len() == 7);
    assert("error"@.len() == 5);
    assert("echo_ok"@.len() == 7);
    assert("init"@[0] == 'i');
    assert("echo"@[0] == 'e');
    assert("init_ok"@[0] == 'i');
    assert("echo_ok"@[0] == 'e');
    assert("init"@ != "echo"@);
    assert("init_ok"@ != "echo_ok"@);
}

/// Round-trip identity, uniqueness half: one line denotes at most one
/// envelope, up to the views of its fields.  Reading is a function of the
/// line, so whatever a line spells, it spells only that.
pub proof fn lemma_denotes_unique(s: Seq<char>, a: Message, b: Message)
    requires
        denotes(s, a),
        denotes(s, b),
    ensures
        msg_eq(a, b),
{
    lemma_fields_determine_body(a.body, b.body);
}

} // verus!
