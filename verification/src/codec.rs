//! Framing codec: encodes outbound commands by appending a configurable
//! end-of-line sequence, recognizes the two reserved control sentinels, and
//! decodes inbound byte streams into discrete lines using a primary
//! (`\r\n`) or fallback (`\0\0`) delimiter.
use vstd::prelude::*;

use crate::text::push_char;
use crate::text::str_eq;

verus! {

/// The command string that triggers the hardware reset sequence instead of
/// being transmitted.
pub open spec fn reset_sentinel() -> Seq<char> {
    "__RESET__\r\n"@
}

/// The command string that transmits a single interrupt byte instead of its
/// own characters.
pub open spec fn interrupt_sentinel() -> Seq<char> {
    "__CTRLC__\r\n"@
}

pub fn is_reset_sentinel(cmd: &str) -> (r: bool)
    ensures
        r == (cmd@ == reset_sentinel()),
{
    str_eq(cmd, "__RESET__\r\n")
}

pub fn is_interrupt_sentinel(cmd: &str) -> (r: bool)
    ensures
        r == (cmd@ == interrupt_sentinel()),
{
    str_eq(cmd, "__CTRLC__\r\n")
}

/// The user-configured end-of-line string with the escaped tokens `\r` and
/// `\n` translated to the literal control characters.
pub open spec fn unescape_eol_spec(s: Seq<char>) -> Seq<char>
    decreases s.len(),
{
    if s.len() >= 2 && s[0] == '\\' && s[1] == 'r' {
        seq!['\r'] + unescape_eol_spec(s.skip(2))
    } else if s.len() >= 2 && s[0] == '\\' && s[1] == 'n' {
        seq!['\n'] + unescape_eol_spec(s.skip(2))
    } else if s.len() > 0 {
        seq![s[0]] + unescape_eol_spec(s.skip(1))
    } else {
        Seq::empty()
    }
}

/// Translates escaped `\r`/`\n` tokens in an end-of-line setting to literal
/// control bytes.
pub fn unescape_eol(s: &str) -> (r: String)
    ensures
        r@ == unescape_eol_spec(s@),
{
    let n = s.unicode_len();
    let mut out = String::new();
    let mut i: usize = 0;
    proof {
        assert(s@.skip(0) =~= s@);
        assert(out@ + unescape_eol_spec(s@) =~= unescape_eol_spec(s@));
    }
    while i < n
        invariant
            0 <= i <= n,
            n == s@.len(),
            unescape_eol_spec(s@) == out@ + unescape_eol_spec(s@.skip(i as int)),
        decreases n - i,
    {
        let ghost pre = out@;
        let ghost rest = s@.skip(i as int);
        let c = s.get_char(i);
        if c == '\\' && i + 1 < n {
            let c2 = s.get_char(i + 1);
            if c2 == 'r' {
                push_char(&mut out, '\r');
                proof {
                    assert(rest.skip(2) =~= s@.skip(i as int + 2));
                    assert(pre + (seq!['\r'] + unescape_eol_spec(rest.skip(2)))
                        =~= pre.push('\r') + unescape_eol_spec(s@.skip(i as int + 2)));
                }
                i = i + 2;
            } else if c2 == 'n' {
                push_char(&mut out, '\n');
                proof {
                    assert(rest.skip(2) =~= s@.skip(i as int + 2));
                    assert(pre + (seq!['\n'] + unescape_eol_spec(rest.skip(2)))
                        =~= pre.push('\n') + unescape_eol_spec(s@.skip(i as int + 2)));
                }
                i = i + 2;
            } else {
                push_char(&mut out, c);
                proof {
                    assert(rest.skip(1) =~= s@.skip(i as int + 1));
                    assert(pre + (seq![rest[0]] + unescape_eol_spec(rest.skip(1)))
                        =~= pre.push(c) + unescape_eol_spec(s@.skip(i as int + 1)));
                }
                i = i + 1;
            }
        } else {
            push_char(&mut out, c);
            proof {
                assert(rest.skip(1) =~= s@.skip(i as int + 1));
                assert(pre + (seq![rest[0]] + unescape_eol_spec(rest.skip(1)))
                    =~= pre.push(c) + unescape_eol_spec(s@.skip(i as int + 1)));
            }
            i = i + 1;
        }
    }
    proof {
        assert(s@.skip(n as int) =~= Seq::<char>::empty());
        assert(out@ + unescape_eol_spec(s@.skip(n as int)) =~= out@);
    }
    out
}

/// An ordinary outbound command: the command text followed by the translated
/// end-of-line sequence.
pub fn encode(command: &str, eol: &str) -> (r: String)
    ensures
        r@ == command@ + unescape_eol_spec(eol@),
{
    let mut out = command.to_owned();
    let e = unescape_eol(eol);
    out.append(e.as_str());
    out
}

/// Splitting on a two-character delimiter, keeping interior empty segments
/// and dropping one trailing empty segment; `cur` accumulates the segment
/// being read.
pub open spec fn split2_acc(s: Seq<char>, c1: char, c2: char, cur: Seq<char>) -> Seq<Seq<char>>
    decreases s.len(),
{
    if s.len() == 0 {
        if cur.len() == 0 {
            seq![]
        } else {
            seq![cur]
        }
    } else if s.len() >= 2 && s[0] == c1 && s[1] == c2 {
        seq![cur] + split2_acc(s.skip(2), c1, c2, Seq::empty())
    } else {
        split2_acc(s.skip(1), c1, c2, cur.push(s[0]))
    }
}

pub open spec fn split_lines(s: Seq<char>, c1: char, c2: char) -> Seq<Seq<char>> {
    split2_acc(s, c1, c2, Seq::empty())
}

/// Whether the two-character delimiter occurs anywhere in the buffer.
pub open spec fn contains2(s: Seq<char>, c1: char, c2: char) -> bool {
    exists|i: int| 0 <= i && i + 1 < s.len() && #[trigger] s[i] == c1 && s[i + 1] == c2
}

/// The lines decoded from one read: split on `\r\n` when present, else on
/// the `\0\0` fallback, dropping one trailing empty segment.
pub open spec fn decoded_lines(s: Seq<char>) -> Seq<Seq<char>> {
    if contains2(s, '\r', '\n') {
        split_lines(s, '\r', '\n')
    } else {
        split_lines(s, '\0', '\0')
    }
}

fn contains2_exec(s: &str, c1: char, c2: char) -> (r: bool)
    ensures
        r == contains2(s@, c1, c2),
{
    let n = s.unicode_len();
    if n < 2 {
        return false;
    }
    let mut i: usize = 0;
    while i + 1 < n
        invariant
            0 <= i,
            i + 1 <= n,
            n == s@.len(),
            forall|j: int| 0 <= j && j + 1 < i + 1 ==> !(#[trigger] s@[j] == c1 && s@[j + 1] == c2),
        decreases n - i,
    {
        if s.get_char(i) == c1 && s.get_char(i + 1) == c2 {
            assert(contains2(s@, c1, c2));
            return true;
        }
        i = i + 1;
    }
    false
}

/// Decodes one read buffer into discrete lines.
pub fn decode_lines(buf: &str) -> (r: Vec<String>)
    ensures
        r.deep_view() == decoded_lines(buf@),
{
    let crlf = contains2_exec(buf, '\r', '\n');
    let c1: char = if crlf { '\r' } else { '\0' };
    let c2: char = if crlf { '\n' } else { '\0' };
    let n = buf.unicode_len();
    let mut out: Vec<String> = Vec::new();
    let mut start: usize = 0;
    let mut i: usize = 0;
    proof {
        assert(buf@.skip(0) =~= buf@);
        assert(buf@.subrange(0, 0) =~= Seq::<char>::empty());
        assert(out.deep_view() + split2_acc(buf@, c1, c2, Seq::empty())
            =~= split_lines(buf@, c1, c2));
    }
    while i < n
        invariant
            0 <= start <= i <= n,
            n == buf@.len(),
            split_lines(buf@, c1, c2) == out.deep_view()
                + split2_acc(buf@.skip(i as int), c1, c2, buf@.subrange(start as int, i as int)),
        decreases n - i,
    {
        let ghost pre = out.deep_view();
        let ghost rest = buf@.skip(i as int);
        let ghost cur = buf@.subrange(start as int, i as int);
        let ca = buf.get_char(i);
        let mut is_delim = false;
        if ca == c1 && i + 1 < n {
            if buf.get_char(i + 1) == c2 {
                is_delim = true;
            }
        }
        if is_delim {
            let token = buf.substring_char(start, i).to_owned();
            out.push(token);
            proof {
                assert(rest.len() >= 2 && rest[0] == c1 && rest[1] == c2);
                assert(rest.skip(2) =~= buf@.skip(i as int + 2));
                assert(out.deep_view() =~= pre.push(cur));
                assert(buf@.subrange(i as int + 2, i as int + 2) =~= Seq::<char>::empty());
                assert(pre + (seq![cur] + split2_acc(rest.skip(2), c1, c2, Seq::empty()))
                    =~= pre.push(cur)
                        + split2_acc(buf@.skip(i as int + 2), c1, c2,
                            buf@.subrange(i as int + 2, i as int + 2)));
            }
            start = i + 2;
            i = i + 2;
        } else {
            proof {
                assert(!(rest.len() >= 2 && rest[0] == c1 && rest[1] == c2));
                assert(rest.skip(1) =~= buf@.skip(i as int + 1));
                assert(cur.push(rest[0]) =~= buf@.subrange(start as int, i as int + 1));
            }
            i = i + 1;
        }
    }
    proof {
        assert(buf@.skip(n as int) =~= Seq::<char>::empty());
    }
    if start < n {
        let token = buf.substring_char(start, n).to_owned();
        let ghost pre = out.deep_view();
        let ghost cur = buf@.subrange(start as int, n as int);
        out.push(token);
        proof {
            assert(cur.len() > 0);
            assert(out.deep_view() =~= pre.push(cur));
            assert(pre + seq![cur] =~= pre.push(cur));
        }
    } else {
        proof {
            assert(buf@.subrange(start as int, n as int).len() == 0);
            assert(out.deep_view() + split2_acc(Seq::<char>::empty(), c1, c2,
                buf@.subrange(start as int, n as int)) =~= out.deep_view());
        }
    }
    proof {
        if crlf {
            assert(decoded_lines(buf@) == split_lines(buf@, c1, c2));
        } else {
            assert(decoded_lines(buf@) == split_lines(buf@, c1, c2));
        }
    }
    out
}

} // verus!
