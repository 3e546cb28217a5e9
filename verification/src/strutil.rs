//! Small verified string helpers: decimal rendering of integers and
//! line-oriented accumulation.

use vstd::prelude::*;

verus! {

/// The character for one decimal digit.
pub open spec fn spec_digit(d: int) -> char {
    if d == 0 {
        '0'
    } else if d == 1 {
        '1'
    } else if d == 2 {
        '2'
    } else if d == 3 {
        '3'
    } else if d == 4 {
        '4'
    } else if d == 5 {
        '5'
    } else if d == 6 {
        '6'
    } else if d == 7 {
        '7'
    } else if d == 8 {
        '8'
    } else {
        '9'
    }
}

/// The decimal digit string of a non-negative integer, without sign or
/// leading zeros (`0` itself is the single digit `0`).
pub open spec fn spec_udec(n: int) -> Seq<char>
    decreases n,
{
    if n < 10 {
        seq![spec_digit(n)]
    } else {
        spec_udec(n / 10) + seq![spec_digit(n % 10)]
    }
}

/// The decimal string of an integer, with a leading minus sign when
/// negative.
pub open spec fn spec_idec(n: int) -> Seq<char> {
    if n < 0 {
        seq!['-'] + spec_udec(-n)
    } else {
        spec_udec(n)
    }
}

/// One decimal digit as a string slice.
fn digit_str(d: u64) -> (r: &'static str)
    requires
        d < 10,
    ensures
        r@ == seq![spec_digit(d as int)],
{
    proof {
        reveal_strlit("0");
        reveal_strlit("1");
        reveal_strlit("2");
        reveal_strlit("3");
        reveal_strlit("4");
        reveal_strlit("5");
        reveal_strlit("6");
        reveal_strlit("7");
        reveal_strlit("8");
        reveal_strlit("9");
    }
    let r = if d == 0 {
        "0"
    } else if d == 1 {
        "1"
    } else if d == 2 {
        "2"
    } else if d == 3 {
        "3"
    } else if d == 4 {
        "4"
    } else if d == 5 {
        "5"
    } else if d == 6 {
        "6"
    } else if d == 7 {
        "7"
    } else if d == 8 {
        "8"
    } else {
        "9"
    };
    proof {
        assert(r@ =~= seq![spec_digit(d as int)]);
    }
    r
}

/// Renders an unsigned integer in decimal.
pub fn u64_to_string(n: u64) -> (s: String)
    ensures
        s@ == spec_udec(n as int),
    decreases n,
{
    if n < 10 {
        digit_str(n).to_owned()
    } else {
        let mut s = u64_to_string(n / 10);
        s.append(digit_str(n % 10));
        proof {
            assert(s@ =~= spec_udec(n as int));
        }
        s
    }
}

/// Renders a signed integer in decimal.
pub fn i64_to_string(n: i64) -> (s: String)
    ensures
        s@ == spec_idec(n as int),
{
    if n >= 0 {
        u64_to_string(n as u64)
    } else {
        let magnitude: u64 = ((-(n + 1)) as u64) + 1;
        let mut s = "-".to_owned();
        s.append(u64_to_string(magnitude).as_str());
        proof {
            reveal_strlit("-");
            assert(s@ =~= spec_idec(n as int));
        }
        s
    }
}

/// Relies on String::push: appending one character appends exactly that
/// character to the text.
#[verifier::external_body]
pub fn push_char(s: &mut String, c: char)
    ensures
        final(s)@ == old(s)@ + seq![c],
{
    s.push(c);
}

/// The number of decimal digits of a bound: ten to the `k`.
pub open spec fn spec_pow10(k: int) -> int
    decreases k,
{
    if k <= 0 {
        1
    } else {
        10 * spec_pow10(k - 1)
    }
}

/// A number below ten to the `k` needs at most `k` digits.
pub proof fn lemma_udec_len(n: int, k: int)
    requires
        0 <= n,
        1 <= k,
        n < spec_pow10(k),
    ensures
        1 <= spec_udec(n).len() <= k,
    decreases k,
{
    if n >= 10 {
        assert(n / 10 < spec_pow10(k - 1)) by (nonlinear_arith)
            requires
                n < spec_pow10(k),
                spec_pow10(k) == 10 * spec_pow10(k - 1),
                10 <= n,
        ;
        lemma_udec_len(n / 10, k - 1);
    }
}

/// Ten to the twenty covers every 64-bit number.
pub proof fn lemma_u64_digits(n: u64)
    ensures
        1 <= spec_udec(n as int).len() <= 20,
{
    reveal_with_fuel(spec_pow10, 21);
    assert(spec_pow10(20) == 100_000_000_000_000_000_000int);
    lemma_udec_len(n as int, 20);
}

/// Strict lexicographic order on character sequences, as Rust orders
/// strings.
pub open spec fn spec_lex_lt(a: Seq<char>, b: Seq<char>) -> bool
    decreases a.len(),
{
    if b.len() == 0 {
        false
    } else if a.len() == 0 {
        true
    } else if a[0] != b[0] {
        a[0] < b[0]
    } else {
        spec_lex_lt(a.drop_first(), b.drop_first())
    }
}

/// Two sequences are never both below one another.
pub proof fn lemma_lex_asymmetric(a: Seq<char>, b: Seq<char>)
    ensures
        !(spec_lex_lt(a, b) && spec_lex_lt(b, a)),
    decreases a.len(),
{
    if a.len() > 0 && b.len() > 0 && a[0] == b[0] {
        lemma_lex_asymmetric(a.drop_first(), b.drop_first());
    }
}

/// Sequences that are not ordered either way are equal.
pub proof fn lemma_lex_total(a: Seq<char>, b: Seq<char>)
    ensures
        spec_lex_lt(a, b) || spec_lex_lt(b, a) || a == b,
    decreases a.len(),
{
    if a.len() == 0 && b.len() == 0 {
        assert(a =~= b);
    } else if a.len() > 0 && b.len() > 0 && a[0] == b[0] {
        lemma_lex_total(a.drop_first(), b.drop_first());
        if !spec_lex_lt(a, b) && !spec_lex_lt(b, a) {
            assert(a.drop_first() == b.drop_first());
            assert(a =~= seq![a[0]] + a.drop_first());
            assert(b =~= seq![b[0]] + b.drop_first());
        }
    }
}

/// Whether `n` occurs in `h` starting at offset `off`.
pub open spec fn spec_match_at(h: Seq<char>, n: Seq<char>, off: int) -> bool {
    &&& 0 <= off
    &&& off + n.len() <= h.len()
    &&& h.subrange(off, off + n.len()) == n
}

/// Whether `n` occurs anywhere in `h`.
pub open spec fn spec_contains_sub(h: Seq<char>, n: Seq<char>) -> bool {
    exists|off: int| spec_match_at(h, n, off)
}

/// Whether the needle occurs in the haystack, comparing characters.
pub fn contains_sub(haystack: &str, needle: &str) -> (r: bool)
    ensures
        r == spec_contains_sub(haystack@, needle@),
{
    let h_len = haystack.unicode_len();
    let n_len = needle.unicode_len();
    if n_len > h_len {
        proof {
            assert(forall|off: int| !spec_match_at(haystack@, needle@, off));
        }
        return false;
    }
    let mut off: usize = 0;
    while off <= h_len - n_len
        invariant
            n_len <= h_len == haystack@.len(),
            n_len == needle@.len(),
            off <= h_len - n_len + 1,
            forall|o: int| 0 <= o < off ==> !spec_match_at(haystack@, needle@, o),
        decreases h_len - n_len - off + 1,
    {
        let mut j: usize = 0;
        let mut hit = true;
        while j < n_len && hit
            invariant
                j <= n_len == needle@.len(),
                off + n_len <= h_len == haystack@.len(),
                hit ==> forall|k: int| 0 <= k < j ==> haystack@[off + k] == needle@[k],
                !hit ==> exists|k: int|
                    0 <= k < needle@.len() && haystack@[off + k] != needle@[k],
            decreases n_len - j, (if hit { 1int } else { 0int }),
        {
            if haystack.get_char(off + j) != needle.get_char(j) {
                hit = false;
            } else {
                j += 1;
            }
        }
        if hit {
            proof {
                assert(haystack@.subrange(off as int, off + needle@.len()) =~= needle@);
                assert(spec_match_at(haystack@, needle@, off as int));
            }
            return true;
        }
        proof {
            let k = choose|k: int|
                0 <= k < needle@.len() && haystack@[off + k] != needle@[k];
            assert(haystack@.subrange(off as int, off + needle@.len())[k] != needle@[k]);
            assert(!spec_match_at(haystack@, needle@, off as int));
        }
        off += 1;
    }
    proof {
        assert forall|o: int| !spec_match_at(haystack@, needle@, o) by {
            if 0 <= o <= h_len - n_len {
                assert(!spec_match_at(haystack@, needle@, o));
            }
        }
    }
    false
}

/// The first index at or after `j` holding the character, or the length.
pub open spec fn spec_char_at(s: Seq<char>, c: char, j: int) -> int
    decreases s.len() - j,
{
    if j < 0 || j >= s.len() {
        s.len() as int
    } else if s[j] == c {
        j
    } else {
        spec_char_at(s, c, j + 1)
    }
}

/// The comma-separated pieces of a sequence; a text without commas is one
/// piece, and every comma closes a piece.
pub open spec fn spec_split_commas(s: Seq<char>) -> Seq<Seq<char>>
    decreases s.len(),
{
    let c = spec_char_at(s, ',', 0);
    if c < 0 || c >= s.len() {
        seq![s]
    } else {
        seq![s.take(c)] + spec_split_commas(s.skip(c + 1))
    }
}

proof fn lemma_char_at_bounds(s: Seq<char>, c: char, j: int)
    requires
        0 <= j <= s.len(),
    ensures
        j <= spec_char_at(s, c, j) <= s.len(),
        spec_char_at(s, c, j) < s.len() ==> s[spec_char_at(s, c, j)] == c,
        forall|k: int| j <= k < spec_char_at(s, c, j) ==> s[k] != c,
    decreases s.len() - j,
{
    if j < s.len() && s[j] != c {
        lemma_char_at_bounds(s, c, j + 1);
    }
}

/// Splits a string on commas.
pub fn split_commas(s: &str) -> (r: Vec<String>)
    ensures
        crate::handle::strs_view(r@) == spec_split_commas(s@),
{
    let len = s.unicode_len();
    let mut parts: Vec<String> = Vec::new();
    let mut start: usize = 0;
    proof {
        assert(s@.skip(0) =~= s@);
    }
    loop
        invariant
            start <= len == s@.len(),
            spec_split_commas(s@) == crate::handle::strs_view(parts@) + spec_split_commas(
                s@.skip(start as int),
            ),
        decreases len - start,
    {
        let ghost tail = s@.skip(start as int);
        let mut c: usize = start;
        while c < len && s.get_char(c) != ','
            invariant
                start <= c <= len == s@.len(),
                tail == s@.skip(start as int),
                forall|k: int| start <= k < c ==> s@[k] != ',',
            decreases len - c,
        {
            c += 1;
        }
        proof {
            lemma_char_at_bounds(tail, ',', 0);
            assert forall|k: int| 0 <= k < c - start implies tail[k] != ',' by {
                assert(tail[k] == s@[start + k]);
            }
            if c < len {
                assert(tail[c - start] == s@[c as int]);
                assert(spec_char_at(tail, ',', 0) == c - start) by {
                    lemma_char_at_pinpoint(tail, ',', c - start);
                }
            } else {
                assert(spec_char_at(tail, ',', 0) == tail.len()) by {
                    lemma_char_at_pinpoint(tail, ',', tail.len() as int);
                }
            }
        }
        let ghost parts_pre = crate::handle::strs_view(parts@);
        let piece = s.substring_char(start, c);
        parts.push(piece.to_owned());
        proof {
            assert(crate::handle::strs_view(parts@) =~~= parts_pre.push(piece@));
        }
        if c < len {
            proof {
                assert(piece@ =~= tail.take(c - start as int));
                assert(tail.skip(c - start as int + 1) =~= s@.skip(c as int + 1));
                assert(parts_pre.push(piece@) + spec_split_commas(s@.skip(c as int + 1))
                    =~~= parts_pre + (seq![tail.take(c - start as int)] + spec_split_commas(
                    tail.skip(c - start as int + 1),
                )));
            }
            start = c + 1;
        } else {
            proof {
                assert(piece@ =~= tail);
                assert(parts_pre + seq![tail] =~~= crate::handle::strs_view(parts@));
            }
            return parts;
        }
    }
}

proof fn lemma_char_at_pinpoint(s: Seq<char>, c: char, pos: int)
    requires
        0 <= pos <= s.len(),
        forall|k: int| 0 <= k < pos ==> s[k] != c,
        pos < s.len() ==> s[pos] == c,
    ensures
        spec_char_at(s, c, 0) == if pos < s.len() {
            pos
        } else {
            s.len() as int
        },
{
    lemma_char_at_bounds(s, c, 0);
    let f = spec_char_at(s, c, 0);
    if pos < s.len() {
        if f < pos {
            assert(s[f] != c);
        }
        if f > pos {
            assert(s[pos] != c);
        }
    } else {
        if f < s.len() {
            assert(s[f] != c);
        }
    }
}

/// Compares two strings in lexicographic character order.
pub fn str_lt(a: &str, b: &str) -> (r: bool)
    ensures
        r == spec_lex_lt(a@, b@),
{
    let a_len = a.unicode_len();
    let b_len = b.unicode_len();
    let mut i: usize = 0;
    proof {
        assert(a@.skip(0) =~= a@);
        assert(b@.skip(0) =~= b@);
    }
    while i < a_len && i < b_len
        invariant
            i <= a_len == a@.len(),
            i <= b_len == b@.len(),
            spec_lex_lt(a@, b@) == spec_lex_lt(a@.skip(i as int), b@.skip(i as int)),
            forall|k: int| 0 <= k < i ==> a@[k] == b@[k],
        decreases a_len - i,
    {
        let ca = a.get_char(i);
        let cb = b.get_char(i);
        if ca != cb {
            proof {
                assert(a@.skip(i as int)[0] == ca);
                assert(b@.skip(i as int)[0] == cb);
            }
            return ca < cb;
        }
        proof {
            assert(a@.skip(i as int).drop_first() =~= a@.skip(i as int + 1));
            assert(b@.skip(i as int).drop_first() =~= b@.skip(i as int + 1));
        }
        i += 1;
    }
    proof {
        if i >= b_len {
            assert(b@.skip(i as int).len() == 0);
        } else {
            assert(a@.skip(i as int).len() == 0);
            assert(b@.skip(i as int).len() > 0);
        }
    }
    a_len < b_len
}

} // verus!
