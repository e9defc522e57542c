//! Decoding of the escapes of string literals: those of JSON, and `\0`.

use vstd::prelude::*;
use crate::text::{push_char, owned};

verus! {

/// Whether `v` is the code of a character (a Unicode scalar value).
pub open spec fn is_scalar(v: nat) -> bool {
    v < 0xD800 || (0xE000 <= v && v <= 0x10FFFF)
}

/// `char::from_u32`: the character with code `v`, when `v` is a Unicode
/// scalar value, else nothing.
#[verifier::external_body]
fn char_from_u32(v: u32) -> (r: Option<char>)
    ensures
        r is Some <==> is_scalar(v as nat),
        r matches Some(c) ==> c == (v as char),
{
    char::from_u32(v)
}

/// The value of a hexadecimal digit.
pub open spec fn hex_value(c: char) -> Option<nat> {
    if '0' <= c && c <= '9' {
        Some((c as nat - '0' as nat) as nat)
    } else if 'a' <= c && c <= 'f' {
        Some((c as nat - 'a' as nat + 10) as nat)
    } else if 'A' <= c && c <= 'F' {
        Some((c as nat - 'A' as nat + 10) as nat)
    } else {
        None
    }
}

/// The value of a hexadecimal digit.
fn hex_digit(c: char) -> (r: Option<u32>)
    ensures
        match hex_value(c) {
            Some(d) => r == Some(d as u32),
            None => r is None,
        },
{
    if '0' <= c && c <= '9' {
        Some(c as u32 - '0' as u32)
    } else if 'a' <= c && c <= 'f' {
        Some(c as u32 - 'a' as u32 + 10)
    } else if 'A' <= c && c <= 'F' {
        Some(c as u32 - 'A' as u32 + 10)
    } else {
        None
    }
}

/// The character a one-letter escape stands for; `\f` gives form feed, U+000C.
pub open spec fn escaped(c: char) -> char {
    if c == 'r' {
        '\r'
    } else if c == 'n' {
        '\n'
    } else if c == 't' {
        '\t'
    } else if c == 'f' {
        '\x0C'
    } else if c == 'b' {
        '\x08'
    } else if c == '0' {
        '\0'
    } else {
        c
    }
}

/// The state of decoding: the text so far, the hex digits still to read
/// in a `\u` escape, their value so far, and whether an escape is open.
pub enum Unescape {
    Going(Seq<char>, nat, nat, bool),
    BadUnicode,
    BadDigit,
}

/// One step of decoding.
pub open spec fn unescape_step(st: Unescape, c: char) -> Unescape {
    match st {
        Unescape::Going(out, u_left, u_val, seen_bs) => {
            if seen_bs {
                if u_left > 0 {
                    match hex_value(c) {
                        None => Unescape::BadDigit,
                        Some(d) => {
                            let v = u_val * 16 + d;
                            if u_left == 1 {
                                if is_scalar(v) {
                                    Unescape::Going(out.push(v as char), 0, v, false)
                                } else {
                                    Unescape::BadUnicode
                                }
                            } else {
                                Unescape::Going(out, (u_left - 1) as nat, v, true)
                            }
                        },
                    }
                } else if c == 'u' {
                    Unescape::Going(out, 4, 0, true)
                } else {
                    Unescape::Going(out.push(escaped(c)), u_left, u_val, false)
                }
            } else if c == '\\' {
                Unescape::Going(out, u_left, u_val, true)
            } else {
                Unescape::Going(out.push(c), u_left, u_val, false)
            }
        },
        other => other,
    }
}

/// Decoding of a whole text.
pub open spec fn unescape(s: Seq<char>) -> Unescape
    decreases s.len(),
{
    if s.len() == 0 {
        Unescape::Going(Seq::empty(), 0, 0, false)
    } else {
        unescape_step(unescape(s.drop_last()), s.last())
    }
}

/// The body of a string literal with its escapes decoded. An escape `\u`
/// takes four hexadecimal digits, which must give a character (else
/// "bad unicode"); another escaped character stands for itself, but for
/// `\r \n \t \f \b \0`. A literal whose `\u` escape is followed by
/// something else than a hexadecimal digit is outside what the grammar
/// lets through.
pub fn parse_string(input: &str) -> (r: Result<String, String>)
    requires
        !(unescape(input@) is BadDigit),
    ensures
        match unescape(input@) {
            Unescape::Going(out, _, _, _) => r matches Ok(s) && s@ == out,
            _ => r matches Err(e) && e@ == "bad unicode"@,
        },
{
    let n = input.unicode_len();
    let mut out = String::new();
    let mut u_left: u32 = 0;
    let mut u_val: u32 = 0;
    let mut seen_bs = false;
    let mut i: usize = 0;
    proof {
        assert(input@.take(0) =~= Seq::<char>::empty());
    }
    while i < n
        invariant
            n == input@.len(),
            i <= n,
            !(unescape(input@) is BadDigit),
            u_left <= 4,
            u_val < 0x10000,
            u_left > 0 ==> seen_bs,
            u_left == 4 ==> u_val == 0,
            u_left == 3 ==> u_val < 16,
            u_left == 2 ==> u_val < 256,
            u_left == 1 ==> u_val < 4096,
            unescape(input@.take(i as int)) == Unescape::Going(out@, u_left as nat, u_val as nat, seen_bs),
        decreases n - i,
    {
        let c = input.get_char(i);
        proof {
            assert(input@.take(i + 1).drop_last() =~= input@.take(i as int));
            assert(input@.take(i + 1).last() == c);
            lemma_unescape_stuck(input@, i + 1);
        }
        if seen_bs {
            if u_left > 0 {
                let d = match hex_digit(c) {
                    Some(d) => d,
                    None => {
                        proof {
                            assert(unescape(input@.take(i + 1)) is BadDigit);
                        }
                        return Err(owned("bad unicode"));
                    },
                };
                u_left -= 1;
                u_val = u_val * 16 + d;
                seen_bs = u_left != 0;
                if !seen_bs {
                    match char_from_u32(u_val) {
                        Some(ch) => push_char(&mut out, ch),
                        None => {
                            proof {
                                lemma_unescape_stuck_bad(input@, i + 1);
                            }
                            return Err(owned("bad unicode"));
                        },
                    }
                }
            } else {
                seen_bs = false;
                if c == 'r' {
                    push_char(&mut out, '\r');
                } else if c == 'n' {
                    push_char(&mut out, '\n');
                } else if c == 't' {
                    push_char(&mut out, '\t');
                } else if c == 'f' {
                    push_char(&mut out, '\x0C');
                } else if c == 'b' {
                    push_char(&mut out, '\x08');
                } else if c == '0' {
                    push_char(&mut out, '\0');
                } else if c == 'u' {
                    u_left = 4;
                    u_val = 0;
                    seen_bs = true;
                } else {
                    push_char(&mut out, c);
                }
            }
        } else if c == '\\' {
            seen_bs = true;
        } else {
            push_char(&mut out, c);
        }
        i += 1;
    }
    proof {
        assert(input@.take(n as int) =~= input@);
    }
    Ok(out)
}

/// Once decoding has failed, it stays failed.
proof fn lemma_unescape_stuck(s: Seq<char>, k: int)
    requires
        0 <= k <= s.len(),
        !(unescape(s) is BadDigit),
    ensures
        !(unescape(s.take(k)) is BadDigit),
    decreases s.len() - k,
{
    if k < s.len() {
        lemma_unescape_stuck(s, k + 1);
        assert(s.take(k + 1).drop_last() =~= s.take(k));
    } else {
        assert(s.take(k) =~= s);
    }
}

/// A failed decoding of a prefix fails the whole text.
proof fn lemma_unescape_stuck_bad(s: Seq<char>, k: int)
    requires
        0 <= k <= s.len(),
        unescape(s.take(k)) is BadUnicode,
    ensures
        unescape(s) is BadUnicode,
    decreases s.len() - k,
{
    if k < s.len() {
        assert(s.take(k + 1).drop_last() =~= s.take(k));
        lemma_unescape_stuck_bad(s, k + 1);
    } else {
        assert(s.take(k) =~= s);
    }
}

/// Text without a backslash decodes to itself.
pub proof fn plain_text_unchanged(s: Seq<char>)
    requires
        !s.contains('\\'),
    ensures
        unescape(s) == Unescape::Going(s, 0, 0, false),
    decreases s.len(),
{
    if s.len() > 0 {
        let d = s.drop_last();
        assert(!d.contains('\\')) by {
            if d.contains('\\') {
                let k = choose|k: int| 0 <= k < d.len() && d[k] == '\\';
                assert(s[k] == '\\');
            }
        }
        plain_text_unchanged(d);
        assert(s.last() != '\\') by {
            assert(s[s.len() - 1] == s.last());
        }
        assert(d.push(s.last()) =~= s);
    } else {
        assert(s =~= Seq::<char>::empty());
    }
}

} // verus!

verus! {

/// Whether `c` is a decimal digit or an upper-case hexadecimal letter.
pub open spec fn upper_hex_char(c: char) -> bool {
    ('0' <= c && c <= '9') || ('A' <= c && c <= 'F')
}

/// Hexadecimal digits have their standard values. Every digit is worth
/// less than sixteen; taken in order, `0`..`9` then `A`..`F`, the sixteen
/// digits are worth strictly more each, so the k-th is worth k; a
/// lower-case letter is worth as much as its upper-case form; and no other
/// character is a digit.
pub proof fn hex_digits_standard()
    ensures
        forall|c: char| #[trigger] hex_value(c) matches Some(d) ==> d < 16,
        forall|c: char, e: char| upper_hex_char(c) && upper_hex_char(e) && c < e
            ==> (#[trigger] hex_value(c) matches Some(x) && #[trigger] hex_value(e) matches Some(y) && x < y),
        forall|c: char| 'A' <= c && c <= 'F' ==> #[trigger] hex_value(c) == hex_value(((c as u32) + 32) as char),
        forall|c: char| #[trigger] hex_value(c) is Some <==> (upper_hex_char(c) || ('a' <= c && c <= 'f')),
{
    assert forall|c: char| 'A' <= c && c <= 'F' implies #[trigger] hex_value(c) == hex_value(((c as u32) + 32) as char) by {
        let l = ((c as u32) + 32) as char;
        assert(l as nat == c as nat + 32);
        assert('a' <= l && l <= 'f');
    }
}

} // verus!
