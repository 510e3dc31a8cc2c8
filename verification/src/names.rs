//! Character-level helpers for catalog names and display names: suffix
//! matching, and decoding of display names stored as quoted string literals.

use vstd::prelude::*;
use vstd::string::*;

verus! {

/// Whether `s` ends with `suf`.
pub open spec fn has_suffix(s: Seq<char>, suf: Seq<char>) -> bool {
    s.len() >= suf.len() && s.subrange(s.len() - suf.len(), s.len() as int) == suf
}

/// Suffix test over string slices.
pub fn ends_with_str(s: &str, suf: &str) -> (r: bool)
    ensures
        r == has_suffix(s@, suf@),
{
    let s_len = s.unicode_len();
    let suf_len = suf.unicode_len();
    if s_len < suf_len {
        return false;
    }
    let base = s_len - suf_len;
    let mut i: usize = 0;
    while i < suf_len
        invariant
            0 <= i <= suf_len,
            base == s@.len() - suf@.len(),
            s_len == s@.len(),
            suf_len == suf@.len(),
            forall|j: int| 0 <= j < i ==> s@[base + j] == suf@[j],
        decreases suf_len - i,
    {
        if s.get_char(base + i) != suf.get_char(i) {
            proof {
                assert(s@.subrange(s@.len() - suf@.len(), s@.len() as int)[i as int]
                    == s@[base + i]);
            }
            return false;
        }
        i += 1;
    }
    proof {
        assert(s@.subrange(s@.len() - suf@.len(), s@.len() as int) =~= suf@);
    }
    true
}

/// The characters of `s` with its last `n` dropped, as an owned string.
pub fn strip_last_chars(s: &str, n: usize) -> (r: String)
    requires
        n <= s@.len(),
    ensures
        r@ == s@.take(s@.len() - n),
{
    let len = s.unicode_len();
    let prefix = s.substring_char(0, len - n);
    proof {
        assert(prefix@ =~= s@.take(s@.len() - n));
    }
    String::from_str(prefix)
}

/// Unescaping of one fixed-form escape of a string literal.
pub open spec fn spec_escape_char(c: char) -> Option<char> {
    if c == '"' {
        Some('"')
    } else if c == '\\' {
        Some('\\')
    } else if c == '/' {
        Some('/')
    } else if c == 'n' {
        Some('\n')
    } else if c == 't' {
        Some('\t')
    } else if c == 'r' {
        Some('\r')
    } else if c == 'b' {
        Some('\u{0008}')
    } else if c == 'f' {
        Some('\u{000C}')
    } else {
        None
    }
}

/// The value of one hexadecimal digit.
pub open spec fn spec_hex_val(c: char) -> Option<u32> {
    let u = c as u32;
    if 0x30 <= u <= 0x39 {
        Some((u - 0x30) as u32)
    } else if 0x61 <= u <= 0x66 {
        Some((u - 0x57) as u32)
    } else if 0x41 <= u <= 0x46 {
        Some((u - 0x37) as u32)
    } else {
        None
    }
}

/// The value of a four-digit hexadecimal escape payload.
pub open spec fn spec_hex4(s: Seq<char>) -> Option<u32>
    recommends
        s.len() == 4,
{
    match (spec_hex_val(s[0]), spec_hex_val(s[1]), spec_hex_val(s[2]), spec_hex_val(s[3])) {
        (Some(a), Some(b), Some(c), Some(d)) => Some(
            (a * 0x1000 + b * 0x100 + c * 0x10 + d) as u32,
        ),
        _ => None,
    }
}

/// The character a surrogate pair denotes.
pub open spec fn spec_surrogate_char(hi: u32, lo: u32) -> char
    recommends
        0xD800 <= hi < 0xDC00,
        0xDC00 <= lo < 0xE000,
{
    (0x10000 + (hi - 0xD800) * 0x400 + (lo - 0xDC00)) as char
}

/// Unescaping of the inside of a quoted string literal, as a JSON string
/// literal reads: the fixed escapes, hexadecimal escapes with surrogate
/// pairs for characters beyond the basic plane, and no raw control
/// characters or stray quotes; anything else makes the literal undecodable.
pub open spec fn spec_unescape_inner(s: Seq<char>) -> Option<Seq<char>>
    decreases s.len(),
{
    if s.len() == 0 {
        Some(Seq::empty())
    } else if s[0] == '"' {
        None
    } else if s[0] == '\\' {
        if s.len() < 2 {
            None
        } else if s[1] == 'u' {
            if s.len() < 6 {
                None
            } else {
                match spec_hex4(s.subrange(2, 6)) {
                    Some(v) => if v < 0xD800 || v >= 0xE000 {
                        match spec_unescape_inner(s.skip(6)) {
                            Some(rest) => Some(seq![v as char] + rest),
                            None => None,
                        }
                    } else if v < 0xDC00 {
                        if s.len() < 12 || s[6] != '\\' || s[7] != 'u' {
                            None
                        } else {
                            match spec_hex4(s.subrange(8, 12)) {
                                Some(lo) => if 0xDC00 <= lo < 0xE000 {
                                    match spec_unescape_inner(s.skip(12)) {
                                        Some(rest) => Some(
                                            seq![spec_surrogate_char(v, lo)] + rest,
                                        ),
                                        None => None,
                                    }
                                } else {
                                    None
                                },
                                None => None,
                            }
                        }
                    } else {
                        None
                    },
                    None => None,
                }
            }
        } else {
            match spec_escape_char(s[1]) {
                Some(c) => match spec_unescape_inner(s.skip(2)) {
                    Some(rest) => Some(seq![c] + rest),
                    None => None,
                },
                None => None,
            }
        }
    } else if (s[0] as u32) < 0x20 {
        None
    } else {
        match spec_unescape_inner(s.drop_first()) {
            Some(rest) => Some(seq![s[0]] + rest),
            None => None,
        }
    }
}

/// Decoding of a display name held as a quoted string literal: the quotes
/// are stripped and escapes resolved; anything malformed decodes to nothing.
pub open spec fn spec_decode_quoted(s: Seq<char>) -> Option<Seq<char>> {
    if s.len() >= 2 && s[0] == '"' && s[s.len() - 1] == '"' {
        spec_unescape_inner(s.subrange(1, s.len() - 1))
    } else {
        None
    }
}

/// Relies on char::from_u32: for a Unicode scalar value it returns the
/// character with exactly that code.
#[verifier::external_body]
fn char_from_code(v: u32) -> (r: char)
    requires
        v < 0xD800 || (0xE000 <= v && v <= 0x10FFFF),
    ensures
        r == v as char,
        r as u32 == v,
{
    // Never fails: every value the callers hand over is a scalar value.
    char::from_u32(v).unwrap()
}

/// Relies on String::push: it appends exactly the one character.
#[verifier::external_body]
fn push_char(s: &mut String, c: char)
    ensures
        final(s)@ == old(s)@.push(c),
{
    s.push(c);
}

/// The value of one hexadecimal digit.
fn hex_val(c: char) -> (r: Option<u32>)
    ensures
        r == spec_hex_val(c),
{
    let u = c as u32;
    if 0x30 <= u && u <= 0x39 {
        Some(u - 0x30)
    } else if 0x61 <= u && u <= 0x66 {
        Some(u - 0x57)
    } else if 0x41 <= u && u <= 0x46 {
        Some(u - 0x37)
    } else {
        None
    }
}

/// Reads a four-digit hexadecimal escape payload.
fn read_hex4(s: &str, pos: usize) -> (r: Option<u32>)
    requires
        pos + 4 <= s@.len(),
        pos + 4 <= usize::MAX,
    ensures
        match r {
            Some(v) => spec_hex4(s@.subrange(pos as int, pos as int + 4)) == Some(v) && v
                <= 0xFFFF,
            None => spec_hex4(s@.subrange(pos as int, pos as int + 4)) is None,
        },
{
    let ghost q = s@.subrange(pos as int, pos as int + 4);
    proof {
        assert(q[0] == s@[pos as int]);
        assert(q[1] == s@[pos as int + 1]);
        assert(q[2] == s@[pos as int + 2]);
        assert(q[3] == s@[pos as int + 3]);
    }
    let a = match hex_val(s.get_char(pos)) {
        Some(x) => x,
        None => {
            return None;
        },
    };
    let b = match hex_val(s.get_char(pos + 1)) {
        Some(x) => x,
        None => {
            return None;
        },
    };
    let c = match hex_val(s.get_char(pos + 2)) {
        Some(x) => x,
        None => {
            return None;
        },
    };
    let d = match hex_val(s.get_char(pos + 3)) {
        Some(x) => x,
        None => {
            return None;
        },
    };
    proof {
        assert(a <= 15 && b <= 15 && c <= 15 && d <= 15);
    }
    Some(a * 0x1000 + b * 0x100 + c * 0x10 + d)
}

/// Decodes a quoted string literal to the name it denotes.
#[verifier::rlimit(100)]
pub fn decode_quoted(s: &str) -> (r: Option<String>)
    ensures
        match r {
            Some(out) => spec_decode_quoted(s@) == Some(out@),
            None => spec_decode_quoted(s@) is None,
        },
{
    let len = s.unicode_len();
    if len < 2 {
        return None;
    }
    if s.get_char(0) != '"' || s.get_char(len - 1) != '"' {
        return None;
    }
    let ghost inner = s@.subrange(1, s@.len() - 1);
    let mut out = String::new();
    let mut i: usize = 1;
    proof {
        assert(inner.skip(0) =~= inner);
    }
    while i < len - 1
        invariant
            1 <= i <= len - 1,
            len == s@.len(),
            2 <= len,
            s@[0] == '"' && s@[len - 1] == '"',
            inner == s@.subrange(1, s@.len() - 1),
            match spec_unescape_inner(inner.skip(i - 1)) {
                Some(rest) => spec_unescape_inner(inner) == Some(out@ + rest),
                None => spec_unescape_inner(inner) is None,
            },
        decreases len - 1 - i,
    {
        let ghost u = inner.skip(i - 1);
        let c = s.get_char(i);
        proof {
            assert(u.len() == len - 1 - i);
            assert(u[0] == inner[i - 1]);
            assert(inner[i - 1] == s@[i as int]);
        }
        if c == '"' {
            return None;
        }
        if c == '\\' {
            if i + 1 >= len - 1 {
                proof {
                    assert(u.len() == 1);
                }
                return None;
            }
            let e = s.get_char(i + 1);
            proof {
                assert(u[1] == inner[i as int]);
                assert(inner[i as int] == s@[i + 1]);
            }
            if e == 'u' {
                if len - 1 - i < 6 {
                    proof {
                        assert(u.len() < 6);
                    }
                    return None;
                }
                proof {
                    assert(u.subrange(2, 6) =~= s@.subrange(i + 2, i + 6));
                }
                let v = match read_hex4(s, i + 2) {
                    Some(v) => v,
                    None => {
                        return None;
                    },
                };
                if v < 0xD800 || v >= 0xE000 {
                    let ch = char_from_code(v);
                    let ghost old_out = out@;
                    push_char(&mut out, ch);
                    proof {
                        assert(u.skip(6) =~= inner.skip(i + 5));
                        match spec_unescape_inner(inner.skip(i + 5)) {
                            Some(rest) => {
                                assert(spec_unescape_inner(u) == Some(
                                    seq![v as char] + rest,
                                ));
                                assert(old_out.push(ch) =~= old_out + seq![v as char]);
                                assert(old_out + (seq![v as char] + rest) =~= (old_out
                                    + seq![v as char]) + rest);
                            },
                            None => {},
                        }
                    }
                    i += 6;
                } else if v < 0xDC00 {
                    if len - 1 - i < 12 {
                        proof {
                            assert(u.len() < 12);
                        }
                        return None;
                    }
                    proof {
                        assert(u[6] == inner[i + 5]);
                        assert(inner[i + 5] == s@[i + 6]);
                        assert(u[7] == inner[i + 6]);
                        assert(inner[i + 6] == s@[i + 7]);
                    }
                    if s.get_char(i + 6) != '\\' || s.get_char(i + 7) != 'u' {
                        return None;
                    }
                    proof {
                        assert(u.subrange(8, 12) =~= s@.subrange(i + 8, i + 12));
                    }
                    let lo = match read_hex4(s, i + 8) {
                        Some(l) => l,
                        None => {
                            return None;
                        },
                    };
                    if !(0xDC00 <= lo && lo < 0xE000) {
                        return None;
                    }
                    let code: u32 = 0x10000 + (v - 0xD800) * 0x400 + (lo - 0xDC00);
                    let ch = char_from_code(code);
                    let ghost old_out = out@;
                    push_char(&mut out, ch);
                    proof {
                        assert(ch == spec_surrogate_char(v, lo));
                        assert(u.skip(12) =~= inner.skip(i + 11));
                        match spec_unescape_inner(inner.skip(i + 11)) {
                            Some(rest) => {
                                assert(spec_unescape_inner(u) == Some(
                                    seq![spec_surrogate_char(v, lo)] + rest,
                                ));
                                assert(old_out.push(ch) =~= old_out + seq![ch]);
                                assert(old_out + (seq![ch] + rest) =~= (old_out + seq![ch])
                                    + rest);
                            },
                            None => {},
                        }
                    }
                    i += 12;
                } else {
                    return None;
                }
            } else {
                let decoded: &str = if e == '"' {
                    "\""
                } else if e == '\\' {
                    "\\"
                } else if e == '/' {
                    "/"
                } else if e == 'n' {
                    "\n"
                } else if e == 't' {
                    "\t"
                } else if e == 'r' {
                    "\r"
                } else if e == 'b' {
                    "\u{0008}"
                } else if e == 'f' {
                    "\u{000C}"
                } else {
                    return None;
                };
                proof {
                    reveal_strlit("\"");
                    reveal_strlit("\\");
                    reveal_strlit("/");
                    reveal_strlit("\n");
                    reveal_strlit("\t");
                    reveal_strlit("\r");
                    reveal_strlit("\u{0008}");
                    reveal_strlit("\u{000C}");
                    assert(decoded@ =~= seq![spec_escape_char(e)->Some_0]);
                }
                let ghost old_out = out@;
                out.append(decoded);
                proof {
                    assert(u.skip(2) =~= inner.skip(i + 1));
                    match spec_unescape_inner(inner.skip(i + 1)) {
                        Some(rest) => {
                            assert(spec_unescape_inner(u) == Some(
                                seq![spec_escape_char(u[1])->Some_0] + rest,
                            ));
                            assert(seq![spec_escape_char(u[1])->Some_0] == decoded@);
                            assert(old_out + (decoded@ + rest) =~= (old_out + decoded@)
                                + rest);
                        },
                        None => {},
                    }
                }
                i += 2;
            }
        } else if (c as u32) < 0x20 {
            return None;
        } else {
            let piece = s.substring_char(i, i + 1);
            proof {
                assert(piece@ =~= seq![s@[i as int]]);
            }
            let ghost old_out = out@;
            out.append(piece);
            proof {
                assert(u.drop_first() =~= inner.skip(i as int));
                match spec_unescape_inner(inner.skip(i as int)) {
                    Some(rest) => {
                        assert(spec_unescape_inner(u) == Some(seq![u[0]] + rest));
                        assert(seq![u[0]] == piece@);
                        assert(old_out + (piece@ + rest) =~= (old_out + piece@) + rest);
                    },
                    None => {},
                }
            }
            i += 1;
        }
    }
    proof {
        assert(inner.skip(i - 1).len() == 0);
        assert(spec_unescape_inner(inner.skip(i - 1)) == Some(Seq::<char>::empty()));
        assert(out@ + Seq::<char>::empty() =~= out@);
    }
    Some(out)
}

} // verus!
