//! The executable decoder: it reads exactly what the grammar in `grammar`
//! denotes.  Each helper's contract says that its result is precisely what
//! the corresponding reading function gives, so `decode` returns `Ok`
//! exactly on the lines that denote an envelope, and `DecodeError` on every
//! other line.

use vstd::prelude::*;
use vstd::string::{StrSliceExecFns, StringExecFns};

use crate::encode::chars_to_string;
use crate::grammar::{
    body_fields, denotes, digits_end, hex4, hval, is_hex_digit, is_ws, lemma_digits_end_bounds,
    no_fields, plane_ok, simple_esc, sp_arr, sp_body_members, sp_body_obj, sp_env_members,
    sp_items, sp_line, sp_num, sp_str, sp_str_body, valid_fields, ws_end, Env, Fields,
};
use crate::protocol::{Body, DecodeError, Message, Responses, Rpc};
use crate::wire::{dval, is_dec_digit, lemma_val_take_le, val};

verus! {

/// The characters of `s`, in order.
fn to_chars(s: &str) -> (v: Vec<char>)
    ensures
        v@ == s@,
{
    let n = s.unicode_len();
    let mut v: Vec<char> = Vec::new();
    let mut i: usize = 0;
    while i < n
        invariant
            n == s@.len(),
            i <= n,
            v@ == s@.take(i as int),
        decreases n - i,
    {
        v.push(s.get_char(i));
        proof {
            assert(s@.take(i + 1) =~= s@.take(i as int).push(s@[i as int]));
        }
        i = i + 1;
    }
    proof {
        assert(s@.take(n as int) =~= s@);
    }
    v
}

/// Whether `c` is JSON whitespace.
fn is_ws_c(c: char) -> (r: bool)
    ensures
        r == is_ws(c),
{
    c == ' ' || c == '\t' || c == '\n' || c == '\r'
}

/// Skips whitespace from `j` on.
fn ws_skip(chars: &Vec<char>, j: usize) -> (r: usize)
    requires
        j <= chars@.len(),
    ensures
        r as int == ws_end(chars@, j as int),
        j <= r <= chars@.len(),
{
    let mut k: usize = j;
    while k < chars.len() && is_ws_c(chars[k])
        invariant
            j <= k <= chars@.len(),
            ws_end(chars@, j as int) == ws_end(chars@, k as int),
        decreases chars@.len() - k,
    {
        k = k + 1;
    }
    k
}

/// Whether `c` is a decimal digit.
fn is_digit_char(c: char) -> (r: bool)
    ensures
        r == is_dec_digit(c),
{
    c == '0' || c == '1' || c == '2' || c == '3' || c == '4' || c == '5' || c == '6' || c == '7'
        || c == '8' || c == '9'
}

/// The numeric value of a digit character.
fn digit_val(c: char) -> (d: usize)
    requires
        is_dec_digit(c),
    ensures
        d == dval(c),
        d < 10,
{
    if c == '0' {
        0
    } else if c == '1' {
        1
    } else if c == '2' {
        2
    } else if c == '3' {
        3
    } else if c == '4' {
        4
    } else if c == '5' {
        5
    } else if c == '6' {
        6
    } else if c == '7' {
        7
    } else if c == '8' {
        8
    } else {
        9
    }
}

/// Whether `c` is a hexadecimal digit.
fn is_hex_c(c: char) -> (r: bool)
    ensures
        r == is_hex_digit(c),
{
    is_digit_char(c) || c == 'a' || c == 'b' || c == 'c' || c == 'd' || c == 'e' || c == 'f'
        || c == 'A' || c == 'B' || c == 'C' || c == 'D' || c == 'E' || c == 'F'
}

/// The numeric value of a hexadecimal digit character.
fn hval_c(c: char) -> (d: u32)
    requires
        is_hex_digit(c),
    ensures
        d == hval(c),
        d < 16,
{
    if c == '0' {
        0
    } else if c == '1' {
        1
    } else if c == '2' {
        2
    } else if c == '3' {
        3
    } else if c == '4' {
        4
    } else if c == '5' {
        5
    } else if c == '6' {
        6
    } else if c == '7' {
        7
    } else if c == '8' {
        8
    } else if c == '9' {
        9
    } else if c == 'a' || c == 'A' {
        10
    } else if c == 'b' || c == 'B' {
        11
    } else if c == 'c' || c == 'C' {
        12
    } else if c == 'd' || c == 'D' {
        13
    } else if c == 'e' || c == 'E' {
        14
    } else {
        15
    }
}

/// The character a single-letter escape stands for.
fn simple_esc_c(e: char) -> (r: Option<char>)
    ensures
        r == simple_esc(e),
{
    if e == '"' {
        Some('"')
    } else if e == '\\' {
        Some('\\')
    } else if e == '/' {
        Some('/')
    } else if e == 'b' {
        Some('\u{0008}')
    } else if e == 'f' {
        Some('\u{000C}')
    } else if e == 'n' {
        Some('\n')
    } else if e == 'r' {
        Some('\r')
    } else if e == 't' {
        Some('\t')
    } else {
        None
    }
}

/// Relies on `char::from_u32`: it returns the character with the given
/// code exactly when the code is a Unicode scalar value (not a surrogate,
/// not above the last code point).
#[verifier::external_body]
fn char_from_u32(v: u32) -> (r: Option<char>)
    ensures
        (r matches Some(c) ==> c as u32 == v),
        (r is Some <==> (v < 0xD800 || (0xE000 <= v && v <= 0x10FFFF))),
{
    char::from_u32(v)
}

/// Consumes a string body up to and including the closing quote, appending
/// the text it spells to `out`.
fn parse_content(chars: &Vec<char>, j: usize, out: &mut Vec<char>) -> (r: Option<usize>)
    requires
        j <= chars@.len(),
    ensures
        (r matches Some(k) ==> j < k <= chars@.len() && final(out)@.len() >= old(out)@.len()
            && final(out)@.subrange(0, old(out)@.len() as int) == old(out)@ && sp_str_body(
            chars@,
            j as int,
        ) == Some((final(out)@.skip(old(out)@.len() as int), k as int))),
        (r is None ==> sp_str_body(chars@, j as int) is None),
    decreases chars@.len() - j,
{
    if j >= chars.len() {
        return None;
    }
    let c = chars[j];
    if c == '"' {
        proof {
            assert(out@.skip(out@.len() as int) =~= Seq::<char>::empty());
            assert(out@.subrange(0, out@.len() as int) =~= out@);
        }
        return Some(j + 1);
    }
    if c == '\\' {
        if j + 1 >= chars.len() {
            return None;
        }
        let c2 = chars[j + 1];
        if c2 == 'u' {
            if chars.len() - j < 6 {
                return None;
            }
            let h0 = chars[j + 2];
            let h1 = chars[j + 3];
            let h2 = chars[j + 4];
            let h3 = chars[j + 5];
            if !(is_hex_c(h0) && is_hex_c(h1) && is_hex_c(h2) && is_hex_c(h3)) {
                return None;
            }
            let v: u32 = hval_c(h0) * 4096 + hval_c(h1) * 256 + hval_c(h2) * 16 + hval_c(h3);
            proof {
                assert(v == hex4(chars@, j + 2));
            }
            if v >= 0xD800 && v < 0xE000 {
                proof {
                    assert(!plane_ok(hex4(chars@, j + 2)));
                }
                return None;
            }
            proof {
                assert(plane_ok(hex4(chars@, j + 2)));
            }
            match char_from_u32(v) {
                Some(ch) => {
                    out.push(ch);
                    let ghost pre = old(out)@;
                    let ghost mid = out@;
                    let r2 = parse_content(chars, j + 6, out);
                    match r2 {
                        Some(k) => {
                            proof {
                                vstd::utf8::char_u32_cast(ch, v);
                                let u2 = out@.skip(mid.len() as int);
                                let u = out@.skip(pre.len() as int);
                                assert(mid == pre.push(ch));
                                assert(out@.subrange(0, mid.len() as int)[pre.len() as int]
                                    == out@[pre.len() as int]);
                                assert(mid[pre.len() as int] == ch);
                                assert(u =~= seq![ch] + u2);
                                assert(out@.subrange(0, pre.len() as int) =~= pre) by {
                                    assert(forall|p: int| 0 <= p < mid.len() ==> #[trigger]
                                        out@.subrange(0, mid.len() as int)[p] == out@[p]);
                                    assert(forall|p: int| 0 <= p < pre.len() ==> #[trigger]
                                        out@.subrange(0, pre.len() as int)[p] == out@[p]);
                                    assert(forall|p: int| 0 <= p < pre.len() ==> mid[p] == pre[p]);
                                }
                                assert(seq![hex4(chars@, j + 2) as char] + u2 =~= u);
                            }
                            return Some(k);
                        },
                        None => {
                            return None;
                        },
                    }
                },
                None => {
                    proof {
                        assert(false);
                    }
                    return None;
                },
            }
        }
        match simple_esc_c(c2) {
            Some(ch) => {
                out.push(ch);
                let ghost pre = old(out)@;
                let ghost mid = out@;
                let r2 = parse_content(chars, j + 2, out);
                match r2 {
                    Some(k) => {
                        proof {
                            let u2 = out@.skip(mid.len() as int);
                            let u = out@.skip(pre.len() as int);
                            assert(mid == pre.push(ch));
                            assert(out@.subrange(0, mid.len() as int)[pre.len() as int]
                                == out@[pre.len() as int]);
                            assert(mid[pre.len() as int] == ch);
                            assert(u =~= seq![ch] + u2);
                            assert(out@.subrange(0, pre.len() as int) =~= pre) by {
                                assert(forall|p: int| 0 <= p < mid.len() ==> #[trigger]
                                    out@.subrange(0, mid.len() as int)[p] == out@[p]);
                                assert(forall|p: int| 0 <= p < pre.len() ==> #[trigger]
                                    out@.subrange(0, pre.len() as int)[p] == out@[p]);
                                assert(forall|p: int| 0 <= p < pre.len() ==> mid[p] == pre[p]);
                            }
                        }
                        return Some(k);
                    },
                    None => {
                        return None;
                    },
                }
            },
            None => {
                return None;
            },
        }
    }
    let cu = c as u32;
    if cu >= 0x20 {
        out.push(c);
        let ghost pre = old(out)@;
        let ghost mid = out@;
        let r2 = parse_content(chars, j + 1, out);
        match r2 {
            Some(k) => {
                proof {
                    let u2 = out@.skip(mid.len() as int);
                    let u = out@.skip(pre.len() as int);
                    assert(mid == pre.push(c));
                    assert(out@.subrange(0, mid.len() as int)[pre.len() as int]
                        == out@[pre.len() as int]);
                    assert(mid[pre.len() as int] == c);
                    assert(u =~= seq![c] + u2);
                    assert(out@.subrange(0, pre.len() as int) =~= pre) by {
                        assert(forall|p: int| 0 <= p < mid.len() ==> #[trigger] out@.subrange(
                            0,
                            mid.len() as int,
                        )[p] == out@[p]);
                        assert(forall|p: int| 0 <= p < pre.len() ==> #[trigger] out@.subrange(
                            0,
                            pre.len() as int,
                        )[p] == out@[p]);
                        assert(forall|p: int| 0 <= p < pre.len() ==> mid[p] == pre[p]);
                    }
                }
                return Some(k);
            },
            None => {
                return None;
            },
        }
    }
    None
}

/// Consumes one JSON string starting at `j`, returning the text it spells.
fn parse_string(chars: &Vec<char>, j: usize) -> (r: Option<(String, usize)>)
    requires
        j <= chars@.len(),
    ensures
        (r matches Some((t, k)) ==> j < k <= chars@.len() && sp_str(chars@, j as int) == Some(
            (t@, k as int),
        )),
        (r is None ==> sp_str(chars@, j as int) is None),
{
    if j >= chars.len() || chars[j] != '"' {
        return None;
    }
    let mut content: Vec<char> = Vec::new();
    match parse_content(chars, j + 1, &mut content) {
        Some(k) => {
            let t = chars_to_string(&content);
            proof {
                assert(content@.skip(0) =~= content@);
            }
            Some((t, k))
        },
        None => None,
    }
}

/// Consumes one JSON integer starting at `j`.
fn parse_number(chars: &Vec<char>, j: usize) -> (r: Option<(usize, usize)>)
    requires
        j <= chars@.len(),
    ensures
        (r matches Some((n, k)) ==> j < k <= chars@.len() && sp_num(chars@, j as int) == Some(
            (n, k as int),
        )),
        (r is None ==> sp_num(chars@, j as int) is None),
{
    let clen = chars.len();
    if j >= clen || !is_digit_char(chars[j]) {
        return None;
    }
    let c0 = chars[j];
    if c0 == '0' {
        if j + 1 < clen && is_digit_char(chars[j + 1]) {
            return None;
        }
        proof {
            assert(digits_end(chars@, j + 1) == j + 1);
            assert(digits_end(chars@, j as int) == j + 1);
            let run = chars@.subrange(j as int, j + 1);
            assert(run =~= seq!['0']);
            assert(run.drop_last() =~= Seq::<char>::empty());
            assert(val(Seq::<char>::empty()) == 0);
            assert(val(run) == 0);
        }
        return Some((0, j + 1));
    }
    let mut n: usize = digit_val(c0);
    let mut k: usize = j + 1;
    proof {
        let run = chars@.subrange(j as int, j + 1);
        assert(run =~= seq![c0]);
        assert(run.drop_last() =~= Seq::<char>::empty());
        assert(val(Seq::<char>::empty()) == 0);
        assert(val(run) == dval(c0));
    }
    while k < clen && is_digit_char(chars[k])
        invariant
            clen == chars@.len(),
            j < k <= clen,
            chars@[j as int] == c0,
            c0 != '0',
            is_dec_digit(c0),
            digits_end(chars@, j as int) == digits_end(chars@, k as int),
            forall|p: int| j <= p < k ==> is_dec_digit(#[trigger] chars@[p]),
            n == val(chars@.subrange(j as int, k as int)),
        decreases clen - k,
    {
        let d = digit_val(chars[k]);
        let ghost run = chars@.subrange(j as int, k as int);
        let step = match n.checked_mul(10) {
            Some(m) => m.checked_add(d),
            None => None,
        };
        match step {
            Some(v) => {
                proof {
                    let run2 = chars@.subrange(j as int, k + 1);
                    assert(run2.drop_last() =~= run);
                    assert(run2.last() == chars@[k as int]);
                    assert(val(run2) == val(run) * 10 + d);
                }
                n = v;
                k = k + 1;
            },
            None => {
                proof {
                    lemma_digits_end_bounds(chars@, k as int);
                    let de = digits_end(chars@, j as int);
                    assert(de == digits_end(chars@, k + 1));
                    lemma_digits_end_bounds(chars@, k + 1);
                    assert(k + 1 <= de);
                    let ds = chars@.subrange(j as int, de);
                    assert(ds.take(k + 1 - j) =~= chars@.subrange(j as int, k + 1));
                    let run2 = chars@.subrange(j as int, k + 1);
                    assert(run2.drop_last() =~= run);
                    assert(run2.last() == chars@[k as int]);
                    assert(val(run2) == val(run) * 10 + d);
                    lemma_val_take_le(ds, k + 1 - j);
                    assert(val(ds) >= val(run2));
                    assert(val(run2) > usize::MAX);
                }
                return None;
            },
        }
    }
    proof {
        assert(digits_end(chars@, k as int) == k);
        assert(digits_end(chars@, j as int) == k);
    }
    Some((n, k))
}

/// Consumes the items of a string array from the first item on, together
/// with the closing bracket.
fn parse_items(chars: &Vec<char>, j: usize) -> (r: Option<(Vec<String>, usize)>)
    requires
        j <= chars@.len(),
    ensures
        (r matches Some((items, k)) ==> j < k <= chars@.len() && sp_items(chars@, j as int)
            == Some((items.deep_view(), k as int))),
        (r is None ==> sp_items(chars@, j as int) is None),
    decreases chars@.len() - j,
{
    match parse_string(chars, j) {
        None => None,
        Some((t, k)) => {
            let k1 = ws_skip(chars, k);
            if k1 >= chars.len() {
                return None;
            }
            let c = chars[k1];
            if c == ']' {
                let mut items: Vec<String> = Vec::new();
                items.push(t);
                proof {
                    assert(items.deep_view() =~= seq![items@[0]@]);
                }
                return Some((items, k1 + 1));
            }
            if c == ',' {
                let k2 = ws_skip(chars, k1 + 1);
                match parse_items(chars, k2) {
                    Some((rest, k3)) => {
                        let mut items = rest;
                        let ghost restv = items.deep_view();
                        items.insert(0, t);
                        proof {
                            assert(items.deep_view() =~= seq![items@[0]@] + restv) by {
                                assert(forall|i: int| 0 <= i < items@.len() ==> #[trigger]
                                    items.deep_view()[i] == items@[i]@);
                                assert(forall|i: int| 0 <= i < restv.len() ==> #[trigger] restv[i]
                                    == items@[i + 1]@);
                            }
                        }
                        return Some((items, k3));
                    },
                    None => {
                        return None;
                    },
                }
            }
            None
        },
    }
}

/// Consumes one JSON array of strings starting at `j`.
fn parse_array(chars: &Vec<char>, j: usize) -> (r: Option<(Vec<String>, usize)>)
    requires
        j <= chars@.len(),
    ensures
        (r matches Some((items, k)) ==> j < k <= chars@.len() && sp_arr(chars@, j as int) == Some(
            (items.deep_view(), k as int),
        )),
        (r is None ==> sp_arr(chars@, j as int) is None),
{
    if j >= chars.len() || chars[j] != '[' {
        return None;
    }
    let j1 = ws_skip(chars, j + 1);
    if j1 >= chars.len() {
        return None;
    }
    if chars[j1] == ']' {
        let items: Vec<String> = Vec::new();
        proof {
            assert(items.deep_view() =~= Seq::<Seq<char>>::empty());
        }
        return Some((items, j1 + 1));
    }
    parse_items(chars, j1)
}

/// The payload members a line has set so far.
struct FieldsRec {
    tag: Option<String>,
    msg_id: Option<usize>,
    node_id: Option<String>,
    node_ids: Option<Vec<String>>,
    echo: Option<String>,
    in_reply_to: Option<usize>,
    code: Option<usize>,
    text: Option<String>,
}

spec fn opt_view(o: Option<String>) -> Option<Seq<char>> {
    match o {
        Some(s) => Some(s@),
        None => None,
    }
}

spec fn optv_view(o: Option<Vec<String>>) -> Option<Seq<Seq<char>>> {
    match o {
        Some(v) => Some(v.deep_view()),
        None => None,
    }
}

spec fn rec_view(r: FieldsRec) -> Fields {
    Fields {
        tag: opt_view(r.tag),
        msg_id: r.msg_id,
        node_id: opt_view(r.node_id),
        node_ids: optv_view(r.node_ids),
        echo: opt_view(r.echo),
        in_reply_to: r.in_reply_to,
        code: r.code,
        text: opt_view(r.text),
    }
}

/// Consumes the members of a payload object from the first key on.
fn parse_body_members(chars: &Vec<char>, j: usize, acc: FieldsRec) -> (r: Option<
    (FieldsRec, usize),
>)
    requires
        j <= chars@.len(),
    ensures
        (r matches Some((f, k)) ==> j < k <= chars@.len() && sp_body_members(
            chars@,
            j as int,
            rec_view(acc),
        ) == Some((rec_view(f), k as int))),
        (r is None ==> sp_body_members(chars@, j as int, rec_view(acc)) is None),
    decreases chars@.len() - j,
{
    let (key, k) = match parse_string(chars, j) {
        Some(p) => p,
        None => {
            return None;
        },
    };
    let k1 = ws_skip(chars, k);
    if k1 >= chars.len() || chars[k1] != ':' {
        return None;
    }
    let k2 = ws_skip(chars, k1 + 1);
    let t_type = String::from_str("type");
    let t_msg_id = String::from_str("msg_id");
    let t_node_id = String::from_str("node_id");
    let t_node_ids = String::from_str("node_ids");
    let t_echo = String::from_str("echo");
    let t_in_reply_to = String::from_str("in_reply_to");
    let t_code = String::from_str("code");
    let t_text = String::from_str("text");
    let stepped: Option<(FieldsRec, usize)> = if key == t_type {
        if acc.tag.is_some() {
            None
        } else {
            match parse_string(chars, k2) {
                Some((t, k3)) => Some((FieldsRec { tag: Some(t), ..acc }, k3)),
                None => None,
            }
        }
    } else if key == t_msg_id {
        if acc.msg_id.is_some() {
            None
        } else {
            match parse_number(chars, k2) {
                Some((n, k3)) => Some((FieldsRec { msg_id: Some(n), ..acc }, k3)),
                None => None,
            }
        }
    } else if key == t_node_id {
        if acc.node_id.is_some() {
            None
        } else {
            match parse_string(chars, k2) {
                Some((t, k3)) => Some((FieldsRec { node_id: Some(t), ..acc }, k3)),
                None => None,
            }
        }
    } else if key == t_node_ids {
        if acc.node_ids.is_some() {
            None
        } else {
            match parse_array(chars, k2) {
                Some((v, k3)) => Some((FieldsRec { node_ids: Some(v), ..acc }, k3)),
                None => None,
            }
        }
    } else if key == t_echo {
        if acc.echo.is_some() {
            None
        } else {
            match parse_string(chars, k2) {
                Some((t, k3)) => Some((FieldsRec { echo: Some(t), ..acc }, k3)),
                None => None,
            }
        }
    } else if key == t_in_reply_to {
        if acc.in_reply_to.is_some() {
            None
        } else {
            match parse_number(chars, k2) {
                Some((n, k3)) => Some((FieldsRec { in_reply_to: Some(n), ..acc }, k3)),
                None => None,
            }
        }
    } else if key == t_code {
        if acc.code.is_some() {
            None
        } else {
            match parse_number(chars, k2) {
                Some((n, k3)) => Some((FieldsRec { code: Some(n), ..acc }, k3)),
                None => None,
            }
        }
    } else if key == t_text {
        if acc.text.is_some() {
            None
        } else {
            match parse_string(chars, k2) {
                Some((t, k3)) => Some((FieldsRec { text: Some(t), ..acc }, k3)),
                None => None,
            }
        }
    } else {
        None
    };
    match stepped {
        None => None,
        Some((acc2, k3)) => {
            let k4 = ws_skip(chars, k3);
            if k4 >= chars.len() {
                return None;
            }
            if chars[k4] == '}' {
                return Some((acc2, k4 + 1));
            }
            if chars[k4] == ',' {
                let k5 = ws_skip(chars, k4 + 1);
                return parse_body_members(chars, k5, acc2);
            }
            None
        },
    }
}

/// Consumes one payload object starting at `j`.
fn parse_body_obj(chars: &Vec<char>, j: usize) -> (r: Option<(FieldsRec, usize)>)
    requires
        j <= chars@.len(),
    ensures
        (r matches Some((f, k)) ==> j < k <= chars@.len() && sp_body_obj(chars@, j as int)
            == Some((rec_view(f), k as int))),
        (r is None ==> sp_body_obj(chars@, j as int) is None),
{
    if j >= chars.len() || chars[j] != '{' {
        return None;
    }
    let j1 = ws_skip(chars, j + 1);
    let empty = FieldsRec {
        tag: None,
        msg_id: None,
        node_id: None,
        node_ids: None,
        echo: None,
        in_reply_to: None,
        code: None,
        text: None,
    };
    proof {
        assert(rec_view(empty) == no_fields());
    }
    parse_body_members(chars, j1, empty)
}

/// The envelope members a line has set so far.
struct EnvRec {
    src: Option<String>,
    dst: Option<String>,
    body: Option<FieldsRec>,
}

spec fn env_view(e: EnvRec) -> Env {
    Env {
        src: opt_view(e.src),
        dst: opt_view(e.dst),
        body: match e.body {
            Some(f) => Some(rec_view(f)),
            None => None,
        },
    }
}

/// Consumes the members of an envelope object from the first key on.
fn parse_env_members(chars: &Vec<char>, j: usize, acc: EnvRec) -> (r: Option<(EnvRec, usize)>)
    requires
        j <= chars@.len(),
    ensures
        (r matches Some((e, k)) ==> j < k <= chars@.len() && sp_env_members(
            chars@,
            j as int,
            env_view(acc),
        ) == Some((env_view(e), k as int))),
        (r is None ==> sp_env_members(chars@, j as int, env_view(acc)) is None),
    decreases chars@.len() - j,
{
    let (key, k) = match parse_string(chars, j) {
        Some(p) => p,
        None => {
            return None;
        },
    };
    let k1 = ws_skip(chars, k);
    if k1 >= chars.len() || chars[k1] != ':' {
        return None;
    }
    let k2 = ws_skip(chars, k1 + 1);
    let t_src = String::from_str("src");
    let t_dest = String::from_str("dest");
    let t_body = String::from_str("body");
    let stepped: Option<(EnvRec, usize)> = if key == t_src {
        if acc.src.is_some() {
            None
        } else {
            match parse_string(chars, k2) {
                Some((t, k3)) => Some((EnvRec { src: Some(t), ..acc }, k3)),
                None => None,
            }
        }
    } else if key == t_dest {
        if acc.dst.is_some() {
            None
        } else {
            match parse_string(chars, k2) {
                Some((t, k3)) => Some((EnvRec { dst: Some(t), ..acc }, k3)),
                None => None,
            }
        }
    } else if key == t_body {
        if acc.body.is_some() {
            None
        } else {
            match parse_body_obj(chars, k2) {
                Some((f, k3)) => Some((EnvRec { body: Some(f), ..acc }, k3)),
                None => None,
            }
        }
    } else {
        None
    };
    match stepped {
        None => None,
        Some((acc2, k3)) => {
            let k4 = ws_skip(chars, k3);
            if k4 >= chars.len() {
                return None;
            }
            if chars[k4] == '}' {
                return Some((acc2, k4 + 1));
            }
            if chars[k4] == ',' {
                let k5 = ws_skip(chars, k4 + 1);
                return parse_env_members(chars, k5, acc2);
            }
            None
        },
    }
}

/// Parses one line into an envelope.  It returns `Ok` exactly when the
/// line denotes an envelope under the wire grammar — well-formed JSON whose
/// envelope sets exactly the string members `src` and `dest` and the object
/// member `body`, whose payload carries a known `type` tag with exactly
/// that variant's correctly typed members, in any member order and with any
/// insignificant whitespace — and then returns that envelope.  On every
/// other line it returns `DecodeError`.
pub fn decode(line: &str) -> (r: Result<Message, DecodeError>)
    ensures
        (r matches Ok(m) ==> denotes(line@, m)),
        (r is Err <==> sp_line(line@) is None),
{
    let chars = to_chars(line);
    let j0 = ws_skip(&chars, 0);
    if j0 >= chars.len() || chars[j0] != '{' {
        return Err(DecodeError);
    }
    let j1 = ws_skip(&chars, j0 + 1);
    let env0 = EnvRec { src: None, dst: None, body: None };
    proof {
        assert(env_view(env0) == Env { src: None, dst: None, body: None });
    }
    let (env, k) = match parse_env_members(&chars, j1, env0) {
        Some(p) => p,
        None => {
            return Err(DecodeError);
        },
    };
    let ke = ws_skip(&chars, k);
    if ke != chars.len() {
        return Err(DecodeError);
    }
    let (src, dst, f) = match (env.src, env.dst, env.body) {
        (Some(src), Some(dst), Some(f)) => (src, dst, f),
        _ => {
            return Err(DecodeError);
        },
    };
    let ghost fv = rec_view(f);
    let tag = match f.tag {
        Some(t) => t,
        None => {
            return Err(DecodeError);
        },
    };
    let t_init = String::from_str("init");
    let t_echo = String::from_str("echo");
    let t_init_ok = String::from_str("init_ok");
    let t_error = String::from_str("error");
    let t_echo_ok = String::from_str("echo_ok");
    if tag == t_init {
        match (f.msg_id, f.node_id, f.node_ids, f.echo, f.in_reply_to, f.code, f.text) {
            (Some(msg_id), Some(node_id), Some(node_ids), None, None, None, None) => {
                let m = Message {
                    src,
                    dst,
                    body: Body::Rpc(Rpc::Init { msg_id, node_id, node_ids }),
                };
                proof {
                    assert(valid_fields(fv));
                    assert(body_fields(m.body) == fv);
                }
                Ok(m)
            },
            _ => {
                proof {
                    assert(!valid_fields(fv));
                }
                Err(DecodeError)
            },
        }
    } else if tag == t_echo {
        match (f.echo, f.msg_id, f.node_id, f.node_ids, f.in_reply_to, f.code, f.text) {
            (Some(echo), Some(msg_id), None, None, None, None, None) => {
                let m = Message { src, dst, body: Body::Rpc(Rpc::Echo { echo, msg_id }) };
                proof {
                    assert(valid_fields(fv));
                    assert(body_fields(m.body) == fv);
                }
                Ok(m)
            },
            _ => {
                proof {
                    assert(!valid_fields(fv));
                }
                Err(DecodeError)
            },
        }
    } else if tag == t_init_ok {
        match (f.in_reply_to, f.msg_id, f.node_id, f.node_ids, f.echo, f.code, f.text) {
            (Some(in_reply_to), None, None, None, None, None, None) => {
                let m = Message {
                    src,
                    dst,
                    body: Body::Responses(Responses::InitOk { in_reply_to }),
                };
                proof {
                    assert(valid_fields(fv));
                    assert(body_fields(m.body) == fv);
                }
                Ok(m)
            },
            _ => {
                proof {
                    assert(!valid_fields(fv));
                }
                Err(DecodeError)
            },
        }
    } else if tag == t_error {
        match (f.in_reply_to, f.code, f.text, f.msg_id, f.node_id, f.node_ids, f.echo) {
            (Some(in_reply_to), Some(code_n), Some(text), None, None, None, None) => {
                if code_n > 65535 {
                    proof {
                        assert(!valid_fields(fv));
                    }
                    return Err(DecodeError);
                }
                let code: u16 = code_n as u16;
                let m = Message {
                    src,
                    dst,
                    body: Body::Responses(Responses::Error { in_reply_to, code, text }),
                };
                proof {
                    assert(valid_fields(fv));
                    assert(body_fields(m.body) == fv);
                }
                Ok(m)
            },
            _ => {
                proof {
                    assert(!valid_fields(fv));
                }
                Err(DecodeError)
            },
        }
    } else if tag == t_echo_ok {
        match (f.echo, f.msg_id, f.in_reply_to, f.node_id, f.node_ids, f.code, f.text) {
            (Some(echo), Some(msg_id), Some(in_reply_to), None, None, None, None) => {
                let m = Message {
                    src,
                    dst,
                    body: Body::Responses(Responses::EchoOk { echo, msg_id, in_reply_to }),
                };
                proof {
                    assert(valid_fields(fv));
                    assert(body_fields(m.body) == fv);
                }
                Ok(m)
            },
            _ => {
                proof {
                    assert(!valid_fields(fv));
                }
                Err(DecodeError)
            },
        }
    } else {
        proof {
            assert(!valid_fields(fv));
        }
        Err(DecodeError)
    }
}

} // verus!
