//! The fish-dialect emitter: every token is escaped so that the shell
//! reads it back as a single word carrying exactly the original
//! characters.

use vstd::prelude::*;

use crate::shell::Shell;
use crate::strutil::push_char;

verus! {

/// Shell metacharacters that need a backslash but keep their own
/// shape.
pub open spec fn is_meta(c: char) -> bool {
    ||| c == '&' ||| c == '$' ||| c == ' ' ||| c == '#' ||| c == '^'
    ||| c == '<' ||| c == '>' ||| c == '(' ||| c == ')'
    ||| c == '[' ||| c == ']' ||| c == '{' ||| c == '}'
    ||| c == '?' ||| c == '*' ||| c == '|' ||| c == ';'
    ||| c == '"' ||| c == '%' ||| c == '~'
}

/// Characters that need a rewriting escape: the private-use byte
/// range, every control character, the backslash and the quote.
pub open spec fn is_complex(c: char) -> bool {
    ||| (0xf600 <= c as int && (c as int) < 0xf700)
    ||| (c as int) < 0x20
    ||| c == '\\'
    ||| c == '\''
}

pub open spec fn needs_escape_char(c: char) -> bool {
    is_meta(c) || is_complex(c)
}

pub open spec fn has_escape(s: Seq<char>) -> bool {
    exists|i: int| 0 <= i < s.len() && needs_escape_char(#[trigger] s[i])
}

pub open spec fn has_complex(s: Seq<char>) -> bool {
    exists|i: int| 0 <= i < s.len() && is_complex(#[trigger] s[i])
}

/// The lower-case hex digit of a value below sixteen.
pub open spec fn hex_char(d: int) -> char {
    if d == 0 { '0' }
    else if d == 1 { '1' }
    else if d == 2 { '2' }
    else if d == 3 { '3' }
    else if d == 4 { '4' }
    else if d == 5 { '5' }
    else if d == 6 { '6' }
    else if d == 7 { '7' }
    else if d == 8 { '8' }
    else if d == 9 { '9' }
    else if d == 10 { 'a' }
    else if d == 11 { 'b' }
    else if d == 12 { 'c' }
    else if d == 13 { 'd' }
    else if d == 14 { 'e' }
    else { 'f' }
}

/// The value of a lower-case hex digit, or -1.
pub open spec fn hex_val(c: char) -> int {
    if '0' <= c && c <= '9' {
        c as int - '0' as int
    } else if 'a' <= c && c <= 'f' {
        10 + c as int - 'a' as int
    } else {
        -1
    }
}

/// The caret-notation letter of a control character's value.
pub open spec fn ctrl_letter(v: int) -> char {
    if v == 1 { 'a' }
    else if v == 2 { 'b' }
    else if v == 3 { 'c' }
    else if v == 4 { 'd' }
    else if v == 5 { 'e' }
    else if v == 6 { 'f' }
    else if v == 7 { 'g' }
    else if v == 8 { 'h' }
    else if v == 9 { 'i' }
    else if v == 10 { 'j' }
    else if v == 11 { 'k' }
    else if v == 12 { 'l' }
    else if v == 13 { 'm' }
    else if v == 14 { 'n' }
    else if v == 15 { 'o' }
    else if v == 16 { 'p' }
    else if v == 17 { 'q' }
    else if v == 18 { 'r' }
    else if v == 19 { 's' }
    else if v == 20 { 't' }
    else if v == 21 { 'u' }
    else if v == 22 { 'v' }
    else if v == 23 { 'w' }
    else if v == 24 { 'x' }
    else if v == 25 { 'y' }
    else { 'z' }
}

/// The characters emitted for one input character outside quotes.
pub open spec fn escape_piece(c: char) -> Seq<char> {
    if 0xf600 <= c as int && (c as int) < 0xf700 {
        let v = c as int - 0xf600;
        seq!['\\', 'X', hex_char(v / 16), hex_char(v % 16)]
    } else if c == '\u{0}' {
        seq!['\\', '0']
    } else if c == '\t' {
        seq!['\\', 't']
    } else if c == '\n' {
        seq!['\\', 'n']
    } else if c == '\u{8}' {
        seq!['\\', 'b']
    } else if c == '\r' {
        seq!['\\', 'r']
    } else if c == '\u{1b}' {
        seq!['\\', 'e']
    } else if c == '\\' {
        seq!['\\', '\\']
    } else if c == '\'' {
        seq!['\\', '\'']
    } else if is_meta(c) {
        seq!['\\', c]
    } else if (c as int) < 0x20 {
        if 0 < c as int && (c as int) < 0x1b {
            seq!['\\', 'c', ctrl_letter(c as int)]
        } else {
            seq!['\\', 'x', hex_char(c as int / 16), hex_char(c as int % 16)]
        }
    } else {
        seq![c]
    }
}

/// The whole input written with per-character escapes.
pub open spec fn escaped_bare(s: Seq<char>) -> Seq<char>
    decreases s.len(),
{
    if s.len() == 0 {
        Seq::empty()
    } else {
        escape_piece(s[0]) + escaped_bare(s.drop_first())
    }
}

/// What escaping yields: the empty word is an explicit empty quote, a
/// word with metacharacters but nothing complex is wrapped in single
/// quotes as it stands, anything else is written with per-character
/// escapes.
pub open spec fn spec_escape(s: Seq<char>) -> Seq<char> {
    if s.len() == 0 {
        seq!['\'', '\'']
    } else if has_escape(s) && !has_complex(s) {
        seq!['\''] + s + seq!['\'']
    } else {
        escaped_bare(s)
    }
}

/// What the unescape characters stand for.
pub open spec fn unescape_simple(c: char) -> char {
    if c == '0' { '\u{0}' }
    else if c == 't' { '\t' }
    else if c == 'n' { '\n' }
    else if c == 'b' { '\u{8}' }
    else if c == 'r' { '\r' }
    else if c == 'e' { '\u{1b}' }
    else { c }
}

/// A model of how the fish shell reads one word back: single quotes
/// switch quoting on and off (inside them only `\\` and `\'` stay
/// escapes), and outside them a backslash introduces the escape forms
/// the emitter writes — `\X`/`\x` hex bytes, `\c` control letters,
/// the named controls, and a literal next character otherwise.  The
/// word evaluates to `out` exactly when the relation holds.
pub open spec fn fish_evals_to(s: Seq<char>, out: Seq<char>, quoted: bool) -> bool
    decreases s.len(),
{
    if s.len() == 0 {
        !quoted && out.len() == 0
    } else if quoted {
        if s[0] == '\'' {
            fish_evals_to(s.drop_first(), out, false)
        } else if s[0] == '\\' && s.len() >= 2 && (s[1] == '\\' || s[1] == '\'') {
            out.len() >= 1 && out[0] == s[1] && fish_evals_to(s.skip(2), out.drop_first(), true)
        } else {
            out.len() >= 1 && out[0] == s[0] && fish_evals_to(s.drop_first(), out.drop_first(), true)
        }
    } else {
        if s[0] == '\'' {
            fish_evals_to(s.drop_first(), out, true)
        } else if s[0] == '\\' {
            if s.len() < 2 {
                false
            } else if s[1] == 'X' || s[1] == 'x' {
                &&& s.len() >= 4
                &&& hex_val(s[2]) >= 0
                &&& hex_val(s[3]) >= 0
                &&& out.len() >= 1
                &&& out[0] as int == (if s[1] == 'X' { 0xf600int } else { 0int })
                    + 16 * hex_val(s[2]) + hex_val(s[3])
                &&& fish_evals_to(s.skip(4), out.drop_first(), false)
            } else if s[1] == 'c' {
                &&& s.len() >= 3
                &&& out.len() >= 1
                &&& out[0] as int == s[2] as int - 96
                &&& fish_evals_to(s.skip(3), out.drop_first(), false)
            } else {
                out.len() >= 1 && out[0] == unescape_simple(s[1])
                    && fish_evals_to(s.skip(2), out.drop_first(), false)
            }
        } else {
            out.len() >= 1 && out[0] == s[0] && fish_evals_to(s.drop_first(), out.drop_first(), false)
        }
    }
}

proof fn lemma_hex_char_val(d: int)
    requires
        0 <= d < 16,
    ensures
        hex_val(hex_char(d)) == d,
{
}

/// Words that evaluate one after the other evaluate together.
proof fn lemma_evals_concat(s1: Seq<char>, o1: Seq<char>, s2: Seq<char>, o2: Seq<char>, q: bool)
    requires
        fish_evals_to(s1, o1, q),
        fish_evals_to(s2, o2, false),
    ensures
        fish_evals_to(s1 + s2, o1 + o2, q),
    decreases s1.len(),
{
    reveal_with_fuel(fish_evals_to, 4);
    let t = s1 + s2;
    let o = o1 + o2;
    if s1.len() == 0 {
        assert(t =~= s2);
        assert(o =~= o2);
    } else {
        assert(t[0] == s1[0]);
        if q {
            if s1[0] == '\'' {
                assert(t.drop_first() =~= s1.drop_first() + s2);
                lemma_evals_concat(s1.drop_first(), o1, s2, o2, false);
            } else if s1[0] == '\\' && s1.len() >= 2 && (s1[1] == '\\' || s1[1] == '\'') {
                assert(t[1] == s1[1]);
                assert(t.skip(2) =~= s1.skip(2) + s2);
                assert(o.drop_first() =~= o1.drop_first() + o2);
                lemma_evals_concat(s1.skip(2), o1.drop_first(), s2, o2, true);
            } else if s1[0] == '\\' && s1.len() == 1 {
                // a lone backslash inside quotes reads literally
                assert(o.drop_first() =~= o1.drop_first() + o2);
                assert(t.drop_first() =~= s1.drop_first() + s2);
                lemma_evals_concat(s1.drop_first(), o1.drop_first(), s2, o2, true);
            } else {
                if s1.len() >= 2 {
                    assert(t[1] == s1[1]);
                }
                assert(t.drop_first() =~= s1.drop_first() + s2);
                assert(o.drop_first() =~= o1.drop_first() + o2);
                lemma_evals_concat(s1.drop_first(), o1.drop_first(), s2, o2, true);
            }
        } else {
            if s1[0] == '\'' {
                assert(t.drop_first() =~= s1.drop_first() + s2);
                lemma_evals_concat(s1.drop_first(), o1, s2, o2, true);
            } else if s1[0] == '\\' {
                assert(s1.len() >= 2);
                assert(t[1] == s1[1]);
                if s1[1] == 'X' || s1[1] == 'x' {
                    assert(s1.len() >= 4);
                    assert(t[2] == s1[2] && t[3] == s1[3]);
                    assert(t.skip(4) =~= s1.skip(4) + s2);
                    assert(o.drop_first() =~= o1.drop_first() + o2);
                    lemma_evals_concat(s1.skip(4), o1.drop_first(), s2, o2, false);
                } else if s1[1] == 'c' {
                    assert(s1.len() >= 3);
                    assert(t[2] == s1[2]);
                    assert(t.skip(3) =~= s1.skip(3) + s2);
                    assert(o.drop_first() =~= o1.drop_first() + o2);
                    lemma_evals_concat(s1.skip(3), o1.drop_first(), s2, o2, false);
                } else {
                    assert(t.skip(2) =~= s1.skip(2) + s2);
                    assert(o.drop_first() =~= o1.drop_first() + o2);
                    lemma_evals_concat(s1.skip(2), o1.drop_first(), s2, o2, false);
                }
            } else {
                assert(t.drop_first() =~= s1.drop_first() + s2);
                assert(o.drop_first() =~= o1.drop_first() + o2);
                lemma_evals_concat(s1.drop_first(), o1.drop_first(), s2, o2, false);
            }
        }
    }
}

/// Each emitted piece reads back as exactly its one character.
proof fn lemma_piece_evals(c: char)
    ensures
        fish_evals_to(escape_piece(c), seq![c], false),
{
    reveal_with_fuel(fish_evals_to, 4);
    let p = escape_piece(c);
    let o = seq![c];
    assert(o.drop_first() =~= Seq::<char>::empty());
    if 0xf600 <= c as int && (c as int) < 0xf700 {
        let v = c as int - 0xf600;
        assert(0 <= v < 256);
        lemma_hex_char_val(v / 16);
        lemma_hex_char_val(v % 16);
        assert(p[0] == '\\' && p[1] == 'X');
        assert(p.skip(4) =~= Seq::<char>::empty());
        assert(c as int == 0xf600 + 16 * (v / 16) + v % 16);
    } else if c == '\u{0}' || c == '\t' || c == '\n' || c == '\u{8}' || c == '\r'
        || c == '\u{1b}' || c == '\\' || c == '\'' {
        assert(p[0] == '\\');
        assert(p.skip(2) =~= Seq::<char>::empty());
        assert(unescape_simple(p[1]) == c);
    } else if is_meta(c) {
        assert(p[0] == '\\' && p[1] == c);
        assert(p.skip(2) =~= Seq::<char>::empty());
        assert(unescape_simple(p[1]) == c);
    } else if (c as int) < 0x20 {
        if 0 < c as int && (c as int) < 0x1b {
            assert(p[0] == '\\' && p[1] == 'c' && p[2] == ctrl_letter(c as int));
            assert(p.skip(3) =~= Seq::<char>::empty());
            assert(ctrl_letter(c as int) as int == 96 + c as int);
        } else {
            let v = c as int;
            assert(0 <= v < 32);
            lemma_hex_char_val(v / 16);
            lemma_hex_char_val(v % 16);
            assert(p[0] == '\\' && p[1] == 'x');
            assert(p.skip(4) =~= Seq::<char>::empty());
            assert(c as int == 16 * (v / 16) + v % 16);
        }
    } else {
        assert(p =~= seq![c]);
        assert(p.drop_first() =~= Seq::<char>::empty());
    }
}

/// The bare escaped form of a word reads back as the word.
proof fn lemma_bare_evals(s: Seq<char>)
    ensures
        fish_evals_to(escaped_bare(s), s, false),
    decreases s.len(),
{
    if s.len() > 0 {
        lemma_piece_evals(s[0]);
        lemma_bare_evals(s.drop_first());
        lemma_evals_concat(
            escape_piece(s[0]),
            seq![s[0]],
            escaped_bare(s.drop_first()),
            s.drop_first(),
            false,
        );
        assert(seq![s[0]] + s.drop_first() =~= s);
    }
}

proof fn lemma_quoted_tail(s: Seq<char>)
    requires
        forall|i: int| 0 <= i < s.len() ==> #[trigger] s[i] != '\\' && s[i] != '\'',
    ensures
        fish_evals_to(s + seq!['\''], s, true),
    decreases s.len(),
{
    reveal_with_fuel(fish_evals_to, 4);
    let t = s + seq!['\''];
    if s.len() == 0 {
        assert(t[0] == '\'');
        assert(t.drop_first() =~= Seq::<char>::empty());
    } else {
        assert(t[0] == s[0]);
        assert(t.drop_first() =~= s.drop_first() + seq!['\'']);
        lemma_quoted_tail(s.drop_first());
    }
}

/// A word with nothing complex, wrapped in single quotes, reads back
/// as itself.
proof fn lemma_quoted_evals(s: Seq<char>)
    requires
        forall|i: int| 0 <= i < s.len() ==> #[trigger] s[i] != '\\' && s[i] != '\'',
    ensures
        fish_evals_to(seq!['\''] + s + seq!['\''], s, false),
{
    reveal_with_fuel(fish_evals_to, 4);
    let t = seq!['\''] + s + seq!['\''];
    assert(t[0] == '\'');
    lemma_quoted_tail(s);
    assert(t.drop_first() =~= s + seq!['\'']);
}

/// Escaping safety: whatever the input holds, its escaped form read
/// back through the shell's word rules yields the input itself.
pub proof fn lemma_escape_round_trip(raw: Seq<char>)
    ensures
        fish_evals_to(spec_escape(raw), raw, false),
{
    if raw.len() == 0 {
        lemma_quoted_evals(raw);
        assert(seq!['\''] + raw + seq!['\''] =~= spec_escape(raw));
    } else if has_escape(raw) && !has_complex(raw) {
        assert forall|i: int| 0 <= i < raw.len()
            implies #[trigger] raw[i] != '\\' && raw[i] != '\'' by {
            assert(!is_complex(raw[i]));
        }
        lemma_quoted_evals(raw);
    } else {
        lemma_bare_evals(raw);
    }
}

proof fn lemma_escaped_bare_snoc(t: Seq<char>, c: char)
    ensures
        escaped_bare(t.push(c)) == escaped_bare(t) + escape_piece(c),
    decreases t.len(),
{
    reveal_with_fuel(escaped_bare, 3);
    let u = t.push(c);
    if t.len() == 0 {
        assert(u[0] == c);
        assert(u.drop_first() =~= Seq::<char>::empty());
        assert(escaped_bare(u) =~= escape_piece(c));
        assert(escaped_bare(t) + escape_piece(c) =~= escape_piece(c));
    } else {
        assert(u[0] == t[0]);
        assert(u.drop_first() =~= t.drop_first().push(c));
        lemma_escaped_bare_snoc(t.drop_first(), c);
        assert(escaped_bare(u) == escape_piece(t[0])
            + (escaped_bare(t.drop_first()) + escape_piece(c)));
        assert(escape_piece(t[0]) + (escaped_bare(t.drop_first()) + escape_piece(c))
            =~= (escape_piece(t[0]) + escaped_bare(t.drop_first())) + escape_piece(c));
    }
}

proof fn lemma_flags_snoc(t: Seq<char>, c: char)
    ensures
        has_escape(t.push(c)) == (has_escape(t) || needs_escape_char(c)),
        has_complex(t.push(c)) == (has_complex(t) || is_complex(c)),
{
    let u = t.push(c);
    assert(u[t.len() as int] == c);
    if has_escape(t) {
        let w = choose|i: int| 0 <= i < t.len() && needs_escape_char(#[trigger] t[i]);
        assert(needs_escape_char(u[w]));
    }
    if has_complex(t) {
        let w = choose|i: int| 0 <= i < t.len() && is_complex(#[trigger] t[i]);
        assert(is_complex(u[w]));
    }
    if has_escape(u) && !needs_escape_char(c) {
        let w = choose|i: int| 0 <= i < u.len() && needs_escape_char(#[trigger] u[i]);
        assert(w < t.len());
        assert(needs_escape_char(t[w]));
    }
    if has_complex(u) && !is_complex(c) {
        let w = choose|i: int| 0 <= i < u.len() && is_complex(#[trigger] u[i]);
        assert(w < t.len());
        assert(is_complex(t[w]));
    }
}

fn hex_char_exec(d: u32) -> (r: char)
    requires
        d < 16,
    ensures
        r == hex_char(d as int),
{
    if d == 0 { '0' }
    else if d == 1 { '1' }
    else if d == 2 { '2' }
    else if d == 3 { '3' }
    else if d == 4 { '4' }
    else if d == 5 { '5' }
    else if d == 6 { '6' }
    else if d == 7 { '7' }
    else if d == 8 { '8' }
    else if d == 9 { '9' }
    else if d == 10 { 'a' }
    else if d == 11 { 'b' }
    else if d == 12 { 'c' }
    else if d == 13 { 'd' }
    else if d == 14 { 'e' }
    else { 'f' }
}

fn ctrl_letter_exec(c: char) -> (r: char)
    requires
        0 < c as int && (c as int) < 0x1b,
    ensures
        r == ctrl_letter(c as int),
{
    let v = c as u32;
    if v == 1 { 'a' }
    else if v == 2 { 'b' }
    else if v == 3 { 'c' }
    else if v == 4 { 'd' }
    else if v == 5 { 'e' }
    else if v == 6 { 'f' }
    else if v == 7 { 'g' }
    else if v == 8 { 'h' }
    else if v == 9 { 'i' }
    else if v == 10 { 'j' }
    else if v == 11 { 'k' }
    else if v == 12 { 'l' }
    else if v == 13 { 'm' }
    else if v == 14 { 'n' }
    else if v == 15 { 'o' }
    else if v == 16 { 'p' }
    else if v == 17 { 'q' }
    else if v == 18 { 'r' }
    else if v == 19 { 's' }
    else if v == 20 { 't' }
    else if v == 21 { 'u' }
    else if v == 22 { 'v' }
    else if v == 23 { 'w' }
    else if v == 24 { 'x' }
    else if v == 25 { 'y' }
    else { 'z' }
}

/// Escapes one token so the shell reads it back as a single word
/// carrying exactly the original characters.
pub fn escape_string(raw: &str) -> (r: String)
    ensures
        r@ == spec_escape(raw@),
        fish_evals_to(r@, raw@, false),
{
    proof {
        lemma_escape_round_trip(raw@);
    }
    let len = raw.unicode_len();
    if len == 0 {
        let mut quoted = String::new();
        push_char(&mut quoted, '\'');
        push_char(&mut quoted, '\'');
        proof {
            assert(quoted@ =~= seq!['\'', '\'']);
        }
        return quoted;
    }
    let mut out = String::new();
    let mut needs = false;
    let mut complex = false;
    let mut i: usize = 0;
    proof {
        assert(raw@.subrange(0, 0) =~= Seq::<char>::empty());
    }
    while i < len
        invariant
            0 <= i <= len,
            len == raw@.len(),
            out@ == escaped_bare(raw@.subrange(0, i as int)),
            needs == has_escape(raw@.subrange(0, i as int)),
            complex == has_complex(raw@.subrange(0, i as int)),
        decreases len - i,
    {
        let c = raw.get_char(i);
        let ghost prefix = raw@.subrange(0, i as int);
        let cv = c as u32;
        if 0xf600 <= cv && cv < 0xf700 {
            let v = cv - 0xf600;
            push_char(&mut out, '\\');
            push_char(&mut out, 'X');
            push_char(&mut out, hex_char_exec(v / 16));
            push_char(&mut out, hex_char_exec(v % 16));
            needs = true;
            complex = true;
        } else if c == '\u{0}' {
            push_char(&mut out, '\\');
            push_char(&mut out, '0');
            needs = true;
            complex = true;
        } else if c == '\t' {
            push_char(&mut out, '\\');
            push_char(&mut out, 't');
            needs = true;
            complex = true;
        } else if c == '\n' {
            push_char(&mut out, '\\');
            push_char(&mut out, 'n');
            needs = true;
            complex = true;
        } else if c == '\u{8}' {
            push_char(&mut out, '\\');
            push_char(&mut out, 'b');
            needs = true;
            complex = true;
        } else if c == '\r' {
            push_char(&mut out, '\\');
            push_char(&mut out, 'r');
            needs = true;
            complex = true;
        } else if c == '\u{1b}' {
            push_char(&mut out, '\\');
            push_char(&mut out, 'e');
            needs = true;
            complex = true;
        } else if c == '\\' {
            push_char(&mut out, '\\');
            push_char(&mut out, '\\');
            needs = true;
            complex = true;
        } else if c == '\'' {
            push_char(&mut out, '\\');
            push_char(&mut out, '\'');
            needs = true;
            complex = true;
        } else if c == '&' || c == '$' || c == ' ' || c == '#' || c == '^'
            || c == '<' || c == '>' || c == '(' || c == ')'
            || c == '[' || c == ']' || c == '{' || c == '}'
            || c == '?' || c == '*' || c == '|' || c == ';'
            || c == '"' || c == '%' || c == '~' {
            push_char(&mut out, '\\');
            push_char(&mut out, c);
            needs = true;
        } else if cv < 0x20 {
            if 0 < cv && cv < 0x1b {
                push_char(&mut out, '\\');
                push_char(&mut out, 'c');
                push_char(&mut out, ctrl_letter_exec(c));
            } else {
                let v = c as u32;
                push_char(&mut out, '\\');
                push_char(&mut out, 'x');
                push_char(&mut out, hex_char_exec(v / 16));
                push_char(&mut out, hex_char_exec(v % 16));
            }
            needs = true;
            complex = true;
        } else {
            push_char(&mut out, c);
        }
        proof {
            lemma_escaped_bare_snoc(prefix, c);
            lemma_flags_snoc(prefix, c);
            assert(raw@.subrange(0, i + 1) =~= prefix.push(c));
            assert(out@ =~= escaped_bare(prefix) + escape_piece(c));
        }
        i += 1;
    }
    proof {
        assert(raw@.subrange(0, len as int) =~= raw@);
    }
    if needs && !complex {
        let mut quoted = String::new();
        push_char(&mut quoted, '\'');
        quoted.append(raw);
        push_char(&mut quoted, '\'');
        proof {
            assert(quoted@ =~= seq!['\''] + raw@ + seq!['\'']);
        }
        quoted
    } else {
        out
    }
}

/// A fish-dialect target writing its commands to a sink.
pub struct Fish<Output> {
    pub output: Output,
}

impl<Output> Fish<Output> {
    pub fn new(output: Output) -> (r: Fish<Output>)
        ensures
            r.output == output,
    {
        Fish { output }
    }
}

/// The change-directory line: `cd`, the escaped path as one word,
/// ended by a newline.
pub fn fish_cd_line(path: &str) -> (r: String)
    ensures
        r@ == seq!['c', 'd', ' '] + spec_escape(path@) + seq!['\n'],
{
    let mut line = String::new();
    push_char(&mut line, 'c');
    push_char(&mut line, 'd');
    push_char(&mut line, ' ');
    let esc = escape_string(path);
    line.append(esc.as_str());
    push_char(&mut line, '\n');
    proof {
        assert(line@ =~= seq!['c', 'd', ' '] + spec_escape(path@) + seq!['\n']);
    }
    line
}

/// The escaped arguments of a command line, each preceded by one
/// space.
pub open spec fn spec_cmd_args(args: Seq<Seq<char>>) -> Seq<char>
    decreases args.len(),
{
    if args.len() == 0 {
        Seq::empty()
    } else {
        spec_cmd_args(args.drop_last()) + seq![' '] + spec_escape(args.last())
    }
}

/// The command line: every token escaped, joined by single spaces,
/// ended by a newline.
pub fn fish_cmd_line(exe: &str, args: &Vec<String>) -> (r: String)
    ensures
        r@ == spec_escape(exe@) + spec_cmd_args(args.deep_view()) + seq!['\n'],
{
    let mut line = escape_string(exe);
    let n = args.len();
    let mut i: usize = 0;
    proof {
        assert(args.deep_view().take(0) =~= Seq::<Seq<char>>::empty());
        assert(line@ =~= spec_escape(exe@) + spec_cmd_args(args.deep_view().take(0)));
    }
    while i < n
        invariant
            0 <= i <= n,
            n == args@.len(),
            args.deep_view().len() == args@.len(),
            line@ == spec_escape(exe@) + spec_cmd_args(args.deep_view().take(i as int)),
        decreases n - i,
    {
        push_char(&mut line, ' ');
        let esc = escape_string(args[i].as_str());
        line.append(esc.as_str());
        proof {
            let dv = args.deep_view();
            assert(dv[i as int] == args@[i as int]@);
            assert(dv.take(i + 1).drop_last() =~= dv.take(i as int));
            assert(dv.take(i + 1).last() == dv[i as int]);
            assert(line@ =~= spec_escape(exe@) + spec_cmd_args(dv.take(i + 1)));
        }
        i += 1;
    }
    push_char(&mut line, '\n');
    proof {
        assert(args.deep_view().take(n as int) =~= args.deep_view());
        assert(line@ =~= spec_escape(exe@) + spec_cmd_args(args.deep_view()) + seq!['\n']);
    }
    line
}

/// The set-variable line: `set`, the escaped key and the escaped
/// value, ended by a newline.
pub fn fish_env_line(key: &str, val: &str) -> (r: String)
    ensures
        r@ == seq!['s', 'e', 't', ' '] + spec_escape(key@) + seq![' '] + spec_escape(val@)
            + seq!['\n'],
{
    let mut line = String::new();
    push_char(&mut line, 's');
    push_char(&mut line, 'e');
    push_char(&mut line, 't');
    push_char(&mut line, ' ');
    let k = escape_string(key);
    line.append(k.as_str());
    push_char(&mut line, ' ');
    let v = escape_string(val);
    line.append(v.as_str());
    push_char(&mut line, '\n');
    proof {
        assert(line@ =~= seq!['s', 'e', 't', ' '] + spec_escape(key@) + seq![' ']
            + spec_escape(val@) + seq!['\n']);
    }
    line
}

impl<Output: crate::shell::ByteSink> Shell for Fish<Output> {
    fn cd(&mut self, path: &str) -> Result<(), ()> {
        let line = fish_cd_line(path);
        self.output.write_line(line.as_str())
    }

    fn cmd(&mut self, exe: &str, args: &Vec<String>) -> Result<(), ()> {
        let line = fish_cmd_line(exe, args);
        self.output.write_line(line.as_str())
    }

    fn env(&mut self, key: &str, val: &str) -> Result<(), ()> {
        let line = fish_env_line(key, val);
        self.output.write_line(line.as_str())
    }
}

} // verus!
