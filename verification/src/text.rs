use vstd::prelude::*;

verus! {

/// `String::push`: appends one character to the end of the string.
#[verifier::external_body]
pub(crate) fn push_char(s: &mut String, c: char)
    ensures
        final(s)@ == old(s)@.push(c),
{
    s.push(c);
}

/// The characters that Unicode gives the White_Space property.
pub open spec fn is_space(c: char) -> bool {
    ||| ('\u{9}' <= c <= '\u{d}')
    ||| c == ' '
    ||| c == '\u{85}'
    ||| c == '\u{a0}'
    ||| c == '\u{1680}'
    ||| ('\u{2000}' <= c <= '\u{200a}')
    ||| c == '\u{2028}'
    ||| c == '\u{2029}'
    ||| c == '\u{202f}'
    ||| c == '\u{205f}'
    ||| c == '\u{3000}'
}

/// Whether a character is Unicode white space.
pub fn space(c: char) -> (r: bool)
    ensures
        r == is_space(c),
{
    ('\u{9}' <= c && c <= '\u{d}') || c == ' ' || c == '\u{85}' || c == '\u{a0}' || c == '\u{1680}'
        || ('\u{2000}' <= c && c <= '\u{200a}') || c == '\u{2028}' || c == '\u{2029}' || c
        == '\u{202f}' || c == '\u{205f}' || c == '\u{3000}'
}

/// The maximal runs of non-space characters of `s`, in order, where `cur` is a
/// run already begun before `s`.
pub open spec fn token_scan(s: Seq<char>, cur: Seq<char>) -> Seq<Seq<char>>
    decreases s.len(),
{
    if s.len() == 0 {
        if cur.len() > 0 {
            seq![cur]
        } else {
            seq![]
        }
    } else if is_space(s[0]) {
        let rest = token_scan(s.drop_first(), seq![]);
        if cur.len() > 0 {
            seq![cur] + rest
        } else {
            rest
        }
    } else {
        token_scan(s.drop_first(), cur.push(s[0]))
    }
}

/// The words of a text, split at Unicode white space.
pub open spec fn words(s: Seq<char>) -> Seq<Seq<char>> {
    token_scan(s, seq![])
}

/// Words separated by single spaces.
pub open spec fn spaced(ws: Seq<Seq<char>>) -> Seq<char>
    decreases ws.len(),
{
    if ws.len() == 0 {
        seq![]
    } else if ws.len() == 1 {
        ws[0]
    } else {
        ws[0] + seq![' '] + spaced(ws.drop_first())
    }
}

/// A run of characters without spaces continues the word being read.
proof fn lemma_token_scan_word(a: Seq<char>, b: Seq<char>, cur: Seq<char>)
    requires
        forall|i: int| 0 <= i < a.len() ==> !is_space(#[trigger] a[i]),
    ensures
        token_scan(a + b, cur) == token_scan(b, cur + a),
    decreases a.len(),
{
    if a.len() == 0 {
        assert(a + b =~= b);
        assert(cur + a =~= cur);
    } else {
        let a1 = a.drop_first();
        assert((a + b).drop_first() =~= a1 + b);
        assert((a + b)[0] == a[0]);
        assert(!is_space(a[0]));
        lemma_token_scan_word(a1, b, cur.push(a[0]));
        assert(cur.push(a[0]) + a1 =~= cur + a);
    }
}

/// Splitting words joined by single spaces gives the words back, when each
/// is non-empty and holds no space.
pub proof fn lemma_words_spaced(ws: Seq<Seq<char>>)
    requires
        ws.len() > 0,
        forall|k: int| 0 <= k < ws.len() ==> #[trigger] ws[k].len() > 0,
        forall|k: int, i: int| 0 <= k < ws.len() && 0 <= i < ws[k].len() ==> !is_space(#[trigger] ws[k][i]),
    ensures
        words(spaced(ws)) == ws,
    decreases ws.len(),
{
    let w0 = ws[0];
    assert(forall|i: int| 0 <= i < w0.len() ==> !is_space(#[trigger] w0[i])) by {
        assert forall|i: int| 0 <= i < w0.len() implies !is_space(#[trigger] w0[i]) by {
            assert(!is_space(ws[0][i]));
        }
    }
    if ws.len() == 1 {
        lemma_token_scan_word(w0, seq![], seq![]);
        assert(w0 + Seq::<char>::empty() =~= w0);
        assert(Seq::<char>::empty() + w0 =~= w0);
        assert(seq![w0] =~= ws);
    } else {
        let rest = ws.drop_first();
        assert forall|k: int| 0 <= k < rest.len() implies #[trigger] rest[k].len() > 0 by {
            assert(rest[k] == ws[k + 1]);
        }
        assert forall|k: int, i: int| 0 <= k < rest.len() && 0 <= i < rest[k].len() implies !is_space(#[trigger] rest[k][i]) by {
            assert(rest[k] == ws[k + 1]);
        }
        lemma_words_spaced(rest);
        let tail = seq![' '] + spaced(rest);
        assert(w0 + seq![' '] + spaced(rest) =~= w0 + tail);
        lemma_token_scan_word(w0, tail, seq![]);
        assert(Seq::<char>::empty() + w0 =~= w0);
        assert(tail.drop_first() =~= spaced(rest));
        assert(is_space(tail[0]));
        assert(seq![w0] + rest =~= ws);
    }
}

/// The characters of a string.
pub fn text_chars(s: &str) -> (out: Vec<char>)
    ensures
        out@ == s@,
{
    let mut out: Vec<char> = Vec::new();
    for c in it: s.chars()
        invariant
            out@ == it.seq().take(it.index() as int),
            it.seq() == s@,
    {
        out.push(c);
    }
    out
}

/// A string holding the given characters.
pub fn chars_to_string(v: &Vec<char>) -> (s: String)
    ensures
        s@ == v@,
{
    let mut s = String::new();
    let mut i: usize = 0;
    while i < v.len()
        invariant
            i <= v.len(),
            s@ == v@.take(i as int),
        decreases v.len() - i,
    {
        push_char(&mut s, v[i]);
        i = i + 1;
        assert(s@ =~= v@.take(i as int));
    }
    assert(v@.take(v.len() as int) =~= v@);
    s
}

/// Whether the characters spell the given text.
pub fn eq_text(a: &Vec<char>, lit: &str) -> (r: bool)
    ensures
        r == (a@ == lit@),
{
    let n = lit.unicode_len();
    if a.len() != n {
        return false;
    }
    let mut i: usize = 0;
    while i < n
        invariant
            n == lit@.len(),
            a@.len() == n,
            i <= n,
            forall|j: int| 0 <= j < i ==> a@[j] == lit@[j],
        decreases n - i,
    {
        if a[i] != lit.get_char(i) {
            return false;
        }
        i = i + 1;
    }
    assert(a@ =~= lit@);
    true
}

/// Splits a text into words at Unicode white space.
pub fn split_words(v: &Vec<char>) -> (out: Vec<Vec<char>>)
    ensures
        out@.map_values(|w: Vec<char>| w@) == words(v@),
{
    let mut out: Vec<Vec<char>> = Vec::new();
    let mut cur: Vec<char> = Vec::new();
    let mut i: usize = 0;
    assert(v@.skip(0) =~= v@);
    assert(cur@ =~= seq![]);
    assert(out@.map_values(|w: Vec<char>| w@) + words(v@) =~= words(v@));
    while i < v.len()
        invariant
            i <= v.len(),
            out@.map_values(|w: Vec<char>| w@) + token_scan(v@.skip(i as int), cur@) == words(v@),
        decreases v.len() - i,
    {
        let c = v[i];
        let ghost rest = v@.skip(i as int);
        assert(rest[0] == c);
        assert(rest.drop_first() =~= v@.skip(i + 1));
        if space(c) {
            if cur.len() > 0 {
                let ghost old_out = out@.map_values(|w: Vec<char>| w@);
                let ghost old_cur = cur@;
                out.push(cur);
                cur = Vec::new();
                assert(out@.map_values(|w: Vec<char>| w@) =~= old_out.push(old_cur));
                assert(old_out + (seq![old_cur] + token_scan(v@.skip(i + 1), seq![])) =~= old_out.push(old_cur) + token_scan(v@.skip(i + 1), seq![]));
            }
            assert(cur@ =~= seq![]);
        } else {
            cur.push(c);
        }
        i = i + 1;
    }
    assert(v@.skip(i as int) =~= seq![]);
    if cur.len() > 0 {
        let ghost old_out = out@.map_values(|w: Vec<char>| w@);
        let ghost old_cur = cur@;
        out.push(cur);
        assert(out@.map_values(|w: Vec<char>| w@) =~= old_out + seq![old_cur]);
    } else {
        let ghost o = out@.map_values(|w: Vec<char>| w@);
        assert(o =~= o + seq![]);
    }
    out
}

/// Every character is an ASCII decimal digit.
pub open spec fn all_digits(d: Seq<char>) -> bool {
    forall|i: int| 0 <= i < d.len() ==> '0' <= #[trigger] d[i] <= '9'
}

/// The number written by a string of decimal digits.
pub open spec fn digits_value(d: Seq<char>) -> nat
    decreases d.len(),
{
    if d.len() == 0 {
        0
    } else {
        digits_value(d.drop_last()) * 10 + (d.last() as nat - '0' as nat) as nat
    }
}

/// The unsigned number a text denotes, as `str::parse` reads it for an
/// unsigned integer type whose largest value is `max`: an optional `+`, then
/// one or more decimal digits, with a value no larger than `max`.
pub open spec fn uint_value(t: Seq<char>, max: nat) -> Option<nat> {
    let d = if t.len() > 0 && t[0] == '+' {
        t.drop_first()
    } else {
        t
    };
    if d.len() > 0 && all_digits(d) && digits_value(d) <= max {
        Some(digits_value(d))
    } else {
        None
    }
}

/// Reads an unsigned decimal number no larger than `max`.
pub fn parse_uint(t: &Vec<char>, max: u64) -> (r: Option<u64>)
    ensures
        r matches Some(v) ==> uint_value(t@, max as nat) == Some(v as nat),
        r is None ==> uint_value(t@, max as nat) is None,
{
    let len = t.len();
    let start: usize = if len > 0 && t[0] == '+' {
        1
    } else {
        0
    };
    let ghost d = if t@.len() > 0 && t@[0] == '+' {
        t@.drop_first()
    } else {
        t@
    };
    assert(d =~= t@.skip(start as int));
    if start == len {
        return None;
    }
    let cap: u128 = max as u128 + 1;
    let mut v: u128 = 0;
    let mut i: usize = start;
    while i < len
        invariant
            start <= i <= len,
            len == t@.len(),
            d == t@.skip(start as int),
            d == (if t@.len() > 0 && t@[0] == '+' {
                t@.drop_first()
            } else {
                t@
            }),
            cap == max + 1,
            all_digits(d.take(i - start)),
            v == if digits_value(d.take(i - start)) < cap {
                digits_value(d.take(i - start))
            } else {
                cap as nat
            },
        decreases len - i,
    {
        let c = t[i];
        if !('0' <= c && c <= '9') {
            assert(!all_digits(d)) by {
                assert(d[i - start] == c);
            }
            return None;
        }
        let digit = (c as u32 - '0' as u32) as u128;
        let ghost k = (i - start) as int;
        assert(d.take(k + 1).drop_last() =~= d.take(k));
        assert(d.take(k + 1).last() == c);
        let nv = v * 10 + digit;
        v = if nv < cap {
            nv
        } else {
            cap
        };
        i = i + 1;
        assert(all_digits(d.take(i - start))) by {
            assert forall|j: int| 0 <= j < d.take(i - start).len() implies '0' <= #[trigger] d.take(i - start)[j] <= '9' by {
                if j < k {
                    assert(d.take(k)[j] == d.take(i - start)[j]);
                }
            }
        }
    }
    assert(d.take(len - start) =~= d);
    if v < cap {
        Some(v as u64)
    } else {
        None
    }
}


/// A line without the carriage return that ended it.
pub open spec fn strip_cr(l: Seq<char>) -> Seq<char> {
    if l.len() > 0 && l.last() == '\r' {
        l.drop_last()
    } else {
        l
    }
}

/// The lines of `s`, where `cur` is a line already begun before `s`: a
/// line feed ends a line (and a carriage return before it), and a last
/// line without a line feed counts when it is not empty.
pub open spec fn line_scan(s: Seq<char>, cur: Seq<char>) -> Seq<Seq<char>>
    decreases s.len(),
{
    if s.len() == 0 {
        if cur.len() > 0 {
            seq![cur]
        } else {
            seq![]
        }
    } else if s[0] == '\n' {
        seq![strip_cr(cur)] + line_scan(s.drop_first(), seq![])
    } else {
        line_scan(s.drop_first(), cur.push(s[0]))
    }
}

/// The lines of a text, as `BufRead::lines` reads them.
pub open spec fn lines_of(s: Seq<char>) -> Seq<Seq<char>> {
    line_scan(s, seq![])
}

/// Splits a text into lines.
pub fn split_lines(v: &Vec<char>) -> (out: Vec<Vec<char>>)
    ensures
        out@.map_values(|w: Vec<char>| w@) == lines_of(v@),
{
    let mut out: Vec<Vec<char>> = Vec::new();
    let mut cur: Vec<char> = Vec::new();
    let mut i: usize = 0;
    assert(v@.skip(0) =~= v@);
    assert(cur@ =~= seq![]);
    assert(out@.map_values(|w: Vec<char>| w@) + lines_of(v@) =~= lines_of(v@));
    while i < v.len()
        invariant
            i <= v.len(),
            out@.map_values(|w: Vec<char>| w@) + line_scan(v@.skip(i as int), cur@) == lines_of(v@),
        decreases v.len() - i,
    {
        let c = v[i];
        let ghost rest = v@.skip(i as int);
        assert(rest[0] == c);
        assert(rest.drop_first() =~= v@.skip(i + 1));
        if c == '\n' {
            let ghost old_out = out@.map_values(|w: Vec<char>| w@);
            let ghost old_cur = cur@;
            let n = cur.len();
            if n > 0 && cur[n - 1] == '\r' {
                cur.pop();
                assert(cur@ =~= strip_cr(old_cur));
            }
            out.push(cur);
            cur = Vec::new();
            assert(out@.map_values(|w: Vec<char>| w@) =~= old_out.push(strip_cr(old_cur)));
            assert(old_out + (seq![strip_cr(old_cur)] + line_scan(v@.skip(i + 1), seq![])) =~= old_out.push(
                strip_cr(old_cur),
            ) + line_scan(v@.skip(i + 1), seq![]));
            assert(cur@ =~= seq![]);
        } else {
            cur.push(c);
        }
        i = i + 1;
    }
    assert(v@.skip(i as int) =~= seq![]);
    if cur.len() > 0 {
        let ghost old_out = out@.map_values(|w: Vec<char>| w@);
        let ghost old_cur = cur@;
        out.push(cur);
        assert(out@.map_values(|w: Vec<char>| w@) =~= old_out + seq![old_cur]);
    } else {
        let ghost o = out@.map_values(|w: Vec<char>| w@);
        assert(o =~= o + seq![]);
    }
    out
}

} // verus!
