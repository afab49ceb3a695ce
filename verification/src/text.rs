//! Text as std handles it: splitting, lines, trimming, numbers in decimal, searching.
use vstd::prelude::*;

verus! {

/// Specifies std's `String::push`: claimed, as its documentation says, that it appends the
/// character to the end of the string and changes nothing else.
pub assume_specification[ String::push ](s: &mut String, ch: char)
    ensures
        final(s)@ == old(s)@.push(ch),
;

/// The views of a sequence of strings.
pub open spec fn views(v: Seq<String>) -> Seq<Seq<char>> {
    v.map_values(|x: String| x@)
}

pub proof fn lemma_views_push(v: Seq<String>, x: String)
    ensures
        views(v.push(x)) == views(v).push(x@),
{
    assert(views(v.push(x)) =~= views(v).push(x@));
}

/// The pieces of `s` between occurrences of `sep`, as `str::split` yields them:
/// every separator closes the current piece and opens a new one.
pub open spec fn split_pieces(s: Seq<char>, sep: char) -> Seq<Seq<char>>
    decreases s.len(),
{
    if s.len() == 0 {
        seq![Seq::<char>::empty()]
    } else {
        let p = split_pieces(s.drop_last(), sep);
        if s.last() == sep {
            p.push(Seq::<char>::empty())
        } else {
            p.update(p.len() - 1, p.last().push(s.last()))
        }
    }
}

pub proof fn lemma_split_nonempty(s: Seq<char>, sep: char)
    ensures
        split_pieces(s, sep).len() >= 1,
    decreases s.len(),
{
    if s.len() > 0 {
        lemma_split_nonempty(s.drop_last(), sep);
    }
}

/// The characters of `s`, in order.
pub fn chars_of(s: &str) -> (r: Vec<char>)
    ensures
        r@ == s@,
{
    let mut r: Vec<char> = Vec::new();
    for c in it: s.chars()
        invariant
            r@ == it.seq().take(it.index() as int),
            it.seq() == s@,
    {
        r.push(c);
    }
    r
}

/// The string made of `cs[lo..hi]`.
pub fn string_of(cs: &Vec<char>, lo: usize, hi: usize) -> (r: String)
    requires
        lo <= hi <= cs.len(),
    ensures
        r@ == cs@.subrange(lo as int, hi as int),
{
    let mut r = String::new();
    let mut i = lo;
    while i < hi
        invariant
            lo <= i <= hi <= cs.len(),
            r@ == cs@.subrange(lo as int, i as int),
        decreases hi - i,
    {
        r.push(cs[i]);
        proof {
            assert(cs@.subrange(lo as int, i + 1) =~= cs@.subrange(lo as int, i as int).push(cs@[i as int]));
        }
        i += 1;
    }
    r
}

/// Appends every character of `s` to `out`.
pub fn push_all(out: &mut String, s: &str)
    ensures
        final(out)@ == old(out)@ + s@,
{
    let cs = chars_of(s);
    let mut i: usize = 0;
    while i < cs.len()
        invariant
            i <= cs.len(),
            cs@ == s@,
            out@ == old(out)@ + cs@.take(i as int),
        decreases cs.len() - i,
    {
        out.push(cs[i]);
        proof {
            assert(cs@.take(i + 1) =~= cs@.take(i as int).push(cs@[i as int]));
            assert(old(out)@ + cs@.take(i + 1) =~= (old(out)@ + cs@.take(i as int)).push(cs@[i as int]));
        }
        i += 1;
    }
    proof {
        assert(cs@.take(cs.len() as int) =~= cs@);
    }
}

/// Splits `s` at every `sep`, as `s.split(sep)` does.
pub fn split_char(s: &str, sep: char) -> (r: Vec<String>)
    ensures
        views(r@) == split_pieces(s@, sep),
{
    let cs = chars_of(s);
    let mut done: Vec<String> = Vec::new();
    let mut cur = String::new();
    let mut i: usize = 0;
    proof {
        assert(cs@.take(0) =~= Seq::<char>::empty());
        assert(views(done@).push(cur@) =~= seq![Seq::<char>::empty()]);
    }
    while i < cs.len()
        invariant
            i <= cs.len(),
            cs@ == s@,
            views(done@).push(cur@) == split_pieces(cs@.take(i as int), sep),
        decreases cs.len() - i,
    {
        let c = cs[i];
        proof {
            assert(cs@.take(i + 1).drop_last() =~= cs@.take(i as int));
            lemma_views_push(done@, cur);
        }
        if c == sep {
            done.push(cur);
            cur = String::new();
            proof {
                lemma_views_push(done@, cur);
            }
        } else {
            let ghost old_cur = cur@;
            cur.push(c);
            proof {
                lemma_views_push(done@, cur);
                assert(views(done@).push(cur@) =~= views(done@).push(old_cur).update(
                    views(done@).len() as int,
                    old_cur.push(c),
                ));
            }
        }
        i += 1;
    }
    proof {
        assert(cs@.take(cs.len() as int) =~= cs@);
        lemma_views_push(done@, cur);
    }
    done.push(cur);
    done
}


/// The last piece of `s` split at `sep`: `s.split(sep).last().unwrap()`.
pub fn last_piece(s: &str, sep: char) -> (r: String)
    ensures
        r@ == split_pieces(s@, sep).last(),
{
    let mut pieces = split_char(s, sep);
    proof {
        lemma_split_nonempty(s@, sep);
    }
    let ghost before = pieces@;
    let r = pieces.pop().unwrap();
    proof {
        assert(views(before).last() == before.last()@);
    }
    r
}

/// A line of text without its terminator: a trailing `'\r'` is removed.
pub open spec fn strip_cr(l: Seq<char>) -> Seq<char> {
    if l.len() > 0 && l.last() == '\r' {
        l.drop_last()
    } else {
        l
    }
}

/// The lines of `s`, as `str::lines` yields them: `s` is cut after every `'\n'`; a line
/// that ended in `'\n'` loses it and then one `'\r'` before it; a last piece without
/// `'\n'` is a line as it stands, and an empty one is no line.
pub open spec fn text_lines(s: Seq<char>) -> Seq<Seq<char>> {
    let p = split_pieces(s, '\n');
    let ended = p.drop_last().map_values(|l: Seq<char>| strip_cr(l));
    if p.last().len() == 0 {
        ended
    } else {
        ended.push(p.last())
    }
}

/// Writing one more line, ended by `'\n'`, after text that is empty or ends a line adds
/// that line, and nothing else, to the lines of the text.
pub proof fn lemma_text_lines_append(o: Seq<char>, l: Seq<char>)
    requires
        o.len() == 0 || o.last() == '\n',
        !l.contains('\n'),
        !(l.len() > 0 && l.last() == '\r'),
    ensures
        text_lines(o + l + seq!['\n']) == text_lines(o).push(l),
{
    crate::tree::lemma_split_single(l, '\n');
    crate::tree::lemma_split_concat(l, Seq::<char>::empty(), '\n');
    crate::tree::lemma_split_single(Seq::<char>::empty(), '\n');
    assert(split_pieces(l + seq!['\n'], '\n') =~= seq![l, Seq::<char>::empty()]) by {
        assert(l + seq!['\n'] + Seq::<char>::empty() =~= l + seq!['\n']);
    }
    if o.len() == 0 {
        assert(o + l + seq!['\n'] =~= l + seq!['\n']);
        assert(text_lines(o) =~= Seq::<Seq<char>>::empty());
        assert(text_lines(o + l + seq!['\n']) =~= seq![l]);
    } else {
        let o0 = o.drop_last();
        assert(o =~= o0 + seq!['\n'] + Seq::<char>::empty());
        crate::tree::lemma_split_concat(o0, Seq::<char>::empty(), '\n');
        crate::tree::lemma_split_concat(o0, l + seq!['\n'], '\n');
        assert(o + l + seq!['\n'] =~= o0 + seq!['\n'] + (l + seq!['\n']));
        let p0 = split_pieces(o0, '\n');
        let p = split_pieces(o, '\n');
        let q = split_pieces(o + l + seq!['\n'], '\n');
        assert(p =~= p0.push(Seq::<char>::empty()));
        assert(q =~= p0 + seq![l, Seq::<char>::empty()]);
        assert(p.drop_last() =~= p0);
        assert(q.drop_last() =~= p0.push(l));
        assert(q.drop_last().map_values(|x: Seq<char>| strip_cr(x)) =~= p0.map_values(
            |x: Seq<char>| strip_cr(x),
        ).push(strip_cr(l)));
    }
}

fn strip_cr_string(l: &String) -> (r: String)
    ensures
        r@ == strip_cr(l@),
{
    let cs = chars_of(l.as_str());
    let n = cs.len();
    if n > 0 && cs[n - 1] == '\r' {
        string_of(&cs, 0, n - 1)
    } else {
        proof {
            assert(cs@.subrange(0, n as int) =~= cs@);
        }
        string_of(&cs, 0, n)
    }
}

/// The lines of `s`, as `s.lines()` yields them.
pub fn lines(s: &str) -> (r: Vec<String>)
    ensures
        views(r@) == text_lines(s@),
{
    let pieces = split_char(s, '\n');
    proof {
        lemma_split_nonempty(s@, '\n');
    }
    let ghost p = split_pieces(s@, '\n');
    let k = pieces.len();
    let mut r: Vec<String> = Vec::new();
    let mut j: usize = 0;
    while j + 1 < k
        invariant
            views(pieces@) == p,
            k == pieces.len() >= 1,
            j + 1 <= k,
            views(r@) == p.take(j as int).map_values(|l: Seq<char>| strip_cr(l)),
        decreases k - j,
    {
        let l = strip_cr_string(&pieces[j]);
        proof {
            lemma_views_push(r@, l);
            assert(p[j as int] == pieces@[j as int]@);
            assert(p.take(j + 1).map_values(|l: Seq<char>| strip_cr(l)) =~= p.take(j as int).map_values(
                |l: Seq<char>| strip_cr(l),
            ).push(strip_cr(p[j as int])));
        }
        r.push(l);
        j += 1;
    }
    proof {
        assert(p.take(j as int) =~= p.drop_last());
        assert(p.last() == pieces@[k - 1]@);
    }
    if pieces[k - 1].as_str().unicode_len() != 0 {
        let last = pieces[k - 1].clone();
        proof {
            lemma_views_push(r@, last);
        }
        r.push(last);
    }
    r
}

/// Whether `c` is white space by Unicode's `White_Space` property, as `char::is_whitespace` says.
pub open spec fn is_white(c: char) -> bool {
    ||| '\u{9}' <= c <= '\u{d}'
    ||| c == ' '
    ||| c == '\u{85}'
    ||| c == '\u{a0}'
    ||| c == '\u{1680}'
    ||| '\u{2000}' <= c <= '\u{200a}'
    ||| c == '\u{2028}'
    ||| c == '\u{2029}'
    ||| c == '\u{202f}'
    ||| c == '\u{205f}'
    ||| c == '\u{3000}'
}

pub fn is_white_char(c: char) -> (r: bool)
    ensures
        r == is_white(c),
{
    ('\u{9}' <= c && c <= '\u{d}') || c == ' ' || c == '\u{85}' || c == '\u{a0}' || c == '\u{1680}'
        || ('\u{2000}' <= c && c <= '\u{200a}') || c == '\u{2028}' || c == '\u{2029}' || c
        == '\u{202f}' || c == '\u{205f}' || c == '\u{3000}'
}

/// `s` without its leading white space.
pub open spec fn trim_start(s: Seq<char>) -> Seq<char>
    decreases s.len(),
{
    if s.len() > 0 && is_white(s[0]) {
        trim_start(s.drop_first())
    } else {
        s
    }
}

/// `s` without its trailing white space.
pub open spec fn trim_end(s: Seq<char>) -> Seq<char>
    decreases s.len(),
{
    if s.len() > 0 && is_white(s.last()) {
        trim_end(s.drop_last())
    } else {
        s
    }
}

/// `s` without white space at either end, as `str::trim` gives it.
pub open spec fn trimmed(s: Seq<char>) -> Seq<char> {
    trim_end(trim_start(s))
}

/// `s.trim()`, as an owned string.
pub fn trim(s: &str) -> (r: String)
    ensures
        r@ == trimmed(s@),
{
    let cs = chars_of(s);
    let n = cs.len();
    let mut lo: usize = 0;
    proof {
        assert(cs@.subrange(0, n as int) =~= cs@);
    }
    while lo < n && is_white_char(cs[lo])
        invariant
            lo <= n == cs.len(),
            cs@ == s@,
            trim_start(s@) == trim_start(cs@.subrange(lo as int, n as int)),
        decreases n - lo,
    {
        proof {
            assert(cs@.subrange(lo as int, n as int).drop_first() =~= cs@.subrange(lo + 1, n as int));
        }
        lo += 1;
    }
    let mut hi: usize = n;
    proof {
        assert(trim_start(s@) == cs@.subrange(lo as int, n as int));
    }
    while hi > lo && is_white_char(cs[hi - 1])
        invariant
            lo <= hi <= n == cs.len(),
            cs@ == s@,
            trimmed(s@) == trim_end(cs@.subrange(lo as int, hi as int)),
        decreases hi - lo,
    {
        proof {
            assert(cs@.subrange(lo as int, hi as int).drop_last() =~= cs@.subrange(lo as int, hi - 1));
        }
        hi -= 1;
    }
    string_of(&cs, lo, hi)
}


/// Whether `c` is an ASCII decimal digit.
pub open spec fn is_digit(c: char) -> bool {
    '0' <= c <= '9'
}

/// The number that the decimal digits `d` spell.
pub open spec fn digits_value(d: Seq<char>) -> int
    decreases d.len(),
{
    if d.len() == 0 {
        0
    } else {
        digits_value(d.drop_last()) * 10 + (d.last() as int - '0' as int)
    }
}

/// `s` without one leading `'+'` or `'-'`.
pub open spec fn unsigned_part(s: Seq<char>) -> Seq<char> {
    if s.len() > 0 && (s[0] == '-' || s[0] == '+') {
        s.drop_first()
    } else {
        s
    }
}

/// What `s.parse::<i32>()` gives: an optional `'+'` or `'-'`, then one or more ASCII
/// digits, whose value must fit in an `i32`; anything else is no number.
pub open spec fn parsed_i32(s: Seq<char>) -> Option<i32> {
    let neg = s.len() > 0 && s[0] == '-';
    let d = unsigned_part(s);
    let v = if neg {
        -digits_value(d)
    } else {
        digits_value(d)
    };
    if d.len() == 0 || !(forall|i: int| 0 <= i < d.len() ==> #[trigger] is_digit(d[i])) {
        None
    } else if i32::MIN <= v <= i32::MAX {
        Some(v as i32)
    } else {
        None
    }
}

proof fn lemma_digits_value_grows(d: Seq<char>, i: int)
    requires
        0 <= i <= d.len(),
        forall|k: int| 0 <= k < d.len() ==> #[trigger] is_digit(d[k]),
    ensures
        digits_value(d.take(i)) <= digits_value(d),
        digits_value(d) >= 0,
    decreases d.len(),
{
    if d.len() > 0 {
        assert(is_digit(d[d.len() - 1]));
        if i == d.len() {
            assert(d.take(i) =~= d);
            lemma_digits_value_grows(d.drop_last(), 0);
        } else {
            assert(d.drop_last().take(i) =~= d.take(i));
            lemma_digits_value_grows(d.drop_last(), i);
        }
    } else {
        assert(d.take(i) =~= d);
    }
}

/// `s.parse::<i32>().ok()`.
pub fn parse_i32(s: &str) -> (r: Option<i32>)
    ensures
        r == parsed_i32(s@),
{
    let cs = chars_of(s);
    let n = cs.len();
    let neg = n > 0 && cs[0] == '-';
    let start: usize = if n > 0 && (cs[0] == '-' || cs[0] == '+') {
        1
    } else {
        0
    };
    let ghost d = unsigned_part(s@);
    proof {
        assert(d =~= cs@.subrange(start as int, n as int));
    }
    if start == n {
        return None;
    }
    let mut acc: i64 = 0;
    let mut i: usize = start;
    while i < n
        invariant
            start <= i <= n == cs.len(),
            cs@ == s@,
            d == cs@.subrange(start as int, n as int),
            d == unsigned_part(s@),
            neg == (s@.len() > 0 && s@[0] == '-'),
            forall|k: int| 0 <= k < i - start ==> #[trigger] is_digit(d[k]),
            acc == digits_value(d.take(i - start)),
            0 <= acc <= 2147483648,
        decreases n - i,
    {
        let c = cs[i];
        if !('0' <= c && c <= '9') {
            proof {
                assert(!is_digit(d[i - start]));
            }
            return None;
        }
        proof {
            assert(d.take(i - start + 1).drop_last() =~= d.take(i - start));
        }
        let digit: i64 = (c as u32 - '0' as u32) as i64;
        acc = acc * 10 + digit;
        i += 1;
        if acc > 2147483648 {
            let mut j = i;
            while j < n
                invariant
                    i <= j <= n == cs.len(),
                    start <= i,
                    cs@ == s@,
                    d == cs@.subrange(start as int, n as int),
                    d == unsigned_part(s@),
                    digits_value(d.take(i - start)) > 2147483648,
                    forall|k: int| 0 <= k < j - start ==> #[trigger] is_digit(d[k]),
                decreases n - j,
            {
                if !('0' <= cs[j] && cs[j] <= '9') {
                    proof {
                        assert(!is_digit(d[j - start]));
                    }
                    return None;
                }
                j += 1;
            }
            proof {
                lemma_digits_value_grows(d, i - start);
            }
            return None;
        }
    }
    proof {
        assert(d.take(n - start) =~= d);
    }
    if neg {
        Some((-acc) as i32)
    } else if acc <= 2147483647 {
        Some(acc as i32)
    } else {
        None
    }
}

/// Whether `needle` occurs in `hay` as a contiguous run.
pub open spec fn has_infix(hay: Seq<char>, needle: Seq<char>) -> bool {
    exists|i: int|
        0 <= i && i + needle.len() <= hay.len() && #[trigger] hay.subrange(i, i + needle.len())
            == needle
}

fn matches_at(hay: &Vec<char>, needle: &Vec<char>, i: usize) -> (r: bool)
    requires
        i + needle.len() <= hay.len(),
    ensures
        r == (hay@.subrange(i as int, i + needle.len()) == needle@),
{
    let mut k: usize = 0;
    while k < needle.len()
        invariant
            k <= needle.len(),
            i + needle.len() <= hay.len(),
            forall|t: int| 0 <= t < k ==> hay@[i + t] == needle@[t],
        decreases needle.len() - k,
    {
        if hay[i + k] != needle[k] {
            proof {
                assert(hay@.subrange(i as int, i + needle.len())[k as int] != needle@[k as int]);
            }
            return false;
        }
        k += 1;
    }
    proof {
        assert(hay@.subrange(i as int, i + needle.len()) =~= needle@);
    }
    true
}

/// `hay.contains(needle)`.
pub fn contains_str(hay: &str, needle: &str) -> (r: bool)
    ensures
        r == has_infix(hay@, needle@),
{
    let h = chars_of(hay);
    let nd = chars_of(needle);
    if nd.len() > h.len() {
        return false;
    }
    let last = h.len() - nd.len();
    let mut i: usize = 0;
    while i <= last
        invariant
            last + nd.len() == h.len(),
            h@ == hay@,
            nd@ == needle@,
            forall|t: int| 0 <= t < i ==> #[trigger] hay@.subrange(t, t + needle@.len()) != needle@,
        decreases last + 1 - i,
    {
        if matches_at(&h, &nd, i) {
            return true;
        }
        if i == last {
            return false;
        }
        i += 1;
    }
    false
}

/// The decimal digits of `n`, without sign or leading zeros.
pub open spec fn decimal(n: nat) -> Seq<char>
    decreases n,
{
    if n < 10 {
        seq![digit_char(n)]
    } else {
        decimal(n / 10).push(digit_char(n % 10))
    }
}

/// The ASCII digit for `d < 10`.
pub open spec fn digit_char(d: nat) -> char {
    ('0' as nat + d) as char
}

/// Appends the decimal digits of `n` to `out`, as `format!("{}", n)` writes them.
pub fn push_decimal(out: &mut String, n: usize)
    ensures
        final(out)@ == old(out)@ + decimal(n as nat),
    decreases n,
{
    if n >= 10 {
        push_decimal(out, n / 10);
    }
    let d = (n % 10) as u8;
    let c = (48u8 + d) as char;
    out.push(c);
    proof {
        assert(c == digit_char((n % 10) as nat));
        if n < 10 {
            assert(old(out)@ + decimal(n as nat) =~= old(out)@.push(c));
        } else {
            assert(old(out)@ + decimal(n as nat) =~= (old(out)@ + decimal((n / 10) as nat)).push(c));
        }
    }
}

} // verus!
