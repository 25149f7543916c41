//! Character-level primitives shared by the reference extractor, the slug
//! validator and the report builders: character classes, case-insensitive
//! comparison, line splitting, name sorting, and decimal rendering of counts.

use vstd::prelude::*;
use vstd::std_specs::iter::IteratorSpec;

verus! {

pub open spec fn spec_marker_file_name() -> Seq<char> {
    ".managed-by-loadout"@
}

/// A lowercase slug character: ASCII lowercase letter or digit.
pub open spec fn is_lower_slug_char(c: char) -> bool {
    ('a' <= c && c <= 'z') || ('0' <= c && c <= '9')
}

/// A slug character as the case-insensitive scanners accept it.
pub open spec fn is_ci_slug_char(c: char) -> bool {
    is_lower_slug_char(c) || ('A' <= c && c <= 'Z')
}

/// An ASCII whitespace character, as the scanners treat whitespace.
pub open spec fn is_space_char(c: char) -> bool {
    c == ' ' || c == '\t' || c == '\r' || c == '\u{b}' || c == '\u{c}'
}

/// A whitespace character as trimming treats whitespace: the Unicode
/// White_Space set, which `str::trim` strips.
pub open spec fn is_trim_ws(c: char) -> bool {
    c == ' ' || c == '\t' || c == '\n' || c == '\u{b}' || c == '\u{c}' || c == '\r' || c
        == '\u{85}' || c == '\u{a0}' || c == '\u{1680}' || ((0x2000 <= c as u32) && (c as u32
        <= 0x200a)) || c == '\u{2028}' || c == '\u{2029}' || c == '\u{202f}' || c == '\u{205f}'
        || c == '\u{3000}'
}

/// A word character for word-boundary tests: ASCII letter, digit or underscore.
pub open spec fn is_word_char(c: char) -> bool {
    is_ci_slug_char(c) || c == '_'
}

/// Case-insensitive match of one text character against one lowercase
/// pattern character.
pub open spec fn ci_char_eq(c: char, p: char) -> bool {
    c == p || ('a' <= p && p <= 'z' && 'A' <= c && c <= 'Z' && c as u32 + 32 == p as u32)
}

pub fn lower_slug_char(c: char) -> (r: bool)
    ensures
        r == is_lower_slug_char(c),
{
    ('a' <= c && c <= 'z') || ('0' <= c && c <= '9')
}

pub fn ci_slug_char(c: char) -> (r: bool)
    ensures
        r == is_ci_slug_char(c),
{
    lower_slug_char(c) || ('A' <= c && c <= 'Z')
}

pub fn space_char(c: char) -> (r: bool)
    ensures
        r == is_space_char(c),
{
    c == ' ' || c == '\t' || c == '\r' || c == '\u{b}' || c == '\u{c}'
}

pub fn trim_ws_char(c: char) -> (r: bool)
    ensures
        r == is_trim_ws(c),
{
    c == ' ' || c == '\t' || c == '\n' || c == '\u{b}' || c == '\u{c}' || c == '\r' || c
        == '\u{85}' || c == '\u{a0}' || c == '\u{1680}' || ((0x2000 <= c as u32) && (c as u32
        <= 0x200a)) || c == '\u{2028}' || c == '\u{2029}' || c == '\u{202f}' || c == '\u{205f}'
        || c == '\u{3000}'
}

pub fn word_char(c: char) -> (r: bool)
    ensures
        r == is_word_char(c),
{
    ci_slug_char(c) || c == '_'
}

pub fn ci_char_match(c: char, p: char) -> (r: bool)
    ensures
        r == ci_char_eq(c, p),
{
    c == p || ('a' <= p && p <= 'z' && 'A' <= c && c <= 'Z' && c as u32 + 32 == p as u32)
}

/// The characters of a string, gathered into a vector one by one.
pub fn chars_vec(s: &str) -> (r: Vec<char>)
    ensures
        r@ == s@,
{
    broadcast use vstd::string::group_string_axioms;

    let n = s.unicode_len();
    let mut it = s.chars();
    proof {
        assert(it.remaining() == s@);
    }
    let mut r: Vec<char> = Vec::new();
    let mut k: usize = 0;
    while k < n
        invariant
            k <= n,
            n == s@.len(),
            it.obeys_prophetic_iter_laws(),
            r@.len() == k,
            r@ + it.remaining() == s@,
        decreases n - k,
    {
        let ghost prev = r@;
        let ghost rem = it.remaining();
        proof {
            assert(rem.len() == n - k);
        }
        match it.next() {
            Some(c) => {
                r.push(c);
                proof {
                    assert(c == rem[0]);
                    assert(it.remaining() == rem.drop_first());
                    assert(r@ + it.remaining() =~= prev + rem);
                }
            },
            None => {
                proof {
                    assert(false);
                }
            },
        }
        k = k + 1;
    }
    proof {
        assert(it.remaining().len() == 0);
        assert(r@ =~= s@);
    }
    r
}

/// Relies on `String::push`: appends one character at the end.
#[verifier::external_body]
pub fn push_char(s: &mut String, c: char)
    ensures
        final(s)@ == old(s)@.push(c),
{
    s.push(c);
}

/// Builds a `String` out of a range of a character vector.
pub fn chars_to_string(v: &Vec<char>, from: usize, to: usize) -> (r: String)
    requires
        from <= to <= v@.len(),
    ensures
        r@ == v@.subrange(from as int, to as int),
{
    let mut r = String::new();
    let mut i: usize = from;
    while i < to
        invariant
            from <= i <= to <= v@.len(),
            r@ == v@.subrange(from as int, i as int),
        decreases to - i,
    {
        push_char(&mut r, v[i]);
        proof {
            assert(r@ =~= v@.subrange(from as int, i + 1 as int));
        }
        i = i + 1;
    }
    r
}

/// Index of the first `'\n'` at or after `i`, or the length when none follows.
pub open spec fn first_nl_from(s: Seq<char>, i: int) -> int
    decreases s.len() - i when 0 <= i
{
    if i >= s.len() {
        i
    } else if s[i] == '\n' {
        i
    } else {
        first_nl_from(s, i + 1)
    }
}

pub proof fn lemma_first_nl_bounds(s: Seq<char>, i: int)
    requires
        0 <= i <= s.len(),
    ensures
        i <= first_nl_from(s, i) <= s.len(),
        forall|k: int| i <= k < first_nl_from(s, i) ==> s[k] != '\n',
        first_nl_from(s, i) < s.len() ==> s[first_nl_from(s, i)] == '\n',
    decreases s.len() - i,
{
    if i >= s.len() {
    } else if s[i] == '\n' {
    } else {
        lemma_first_nl_bounds(s, i + 1);
    }
}

/// A line with a trailing carriage return stripped.
pub open spec fn strip_cr(l: Seq<char>) -> Seq<char> {
    if l.len() > 0 && l[l.len() - 1] == '\r' {
        l.drop_last()
    } else {
        l
    }
}

/// The lines of `s` from position `i` on, split as `str::lines` splits them:
/// at each `'\n'`, a trailing `'\r'` stripped from every piece, and no empty
/// final line for a trailing line break.
pub open spec fn spec_lines_from(s: Seq<char>, i: int) -> Seq<Seq<char>>
    decreases s.len() - i when 0 <= i via spec_lines_from_dec
{
    if i >= s.len() {
        Seq::empty()
    } else {
        let j = first_nl_from(s, i);
        if j >= s.len() {
            seq![strip_cr(s.subrange(i, s.len() as int))]
        } else {
            seq![strip_cr(s.subrange(i, j))] + spec_lines_from(s, j + 1)
        }
    }
}

#[via_fn]
proof fn spec_lines_from_dec(s: Seq<char>, i: int) {
    if 0 <= i < s.len() {
        lemma_first_nl_bounds(s, i);
    }
}

pub open spec fn spec_lines(s: Seq<char>) -> Seq<Seq<char>> {
    spec_lines_from(s, 0)
}

/// Splits a character vector into its lines.
pub fn split_lines(content: &Vec<char>) -> (r: Vec<Vec<char>>)
    ensures
        r.deep_view() == spec_lines(content@),
{
    let n: usize = content.len();
    let mut r: Vec<Vec<char>> = Vec::new();
    let mut i: usize = 0;
    while i < n
        invariant
            i <= n,
            n == content@.len(),
            r.deep_view() + spec_lines_from(content@, i as int) == spec_lines(content@),
        decreases n - i,
    {
        // find the next line break
        let mut j: usize = i;
        while j < n && content[j] != '\n'
            invariant
                i <= j <= n,
                n == content@.len(),
                forall|k: int| i <= k < j ==> content@[k] != '\n',
            decreases n - j,
        {
            j = j + 1;
        }
        proof {
            lemma_first_nl_bounds(content@, i as int);
            if j < n {
                assert(content@[j as int] == '\n');
            }
            assert(first_nl_from(content@, i as int) == j as int);
        }
        // strip a trailing carriage return
        let mut end: usize = j;
        if j > i && content[j - 1] == '\r' {
            end = j - 1;
        }
        let line = chars_to_vec(content, i, end);
        proof {
            assert(line@ =~= strip_cr(content@.subrange(i as int, j as int)));
        }
        let ghost old_deep = r.deep_view();
        let ghost linev = line@;
        r.push(line);
        proof {
            assert(r.deep_view() =~~= old_deep.push(linev));
        }
        if j < n {
            proof {
                assert(spec_lines_from(content@, i as int) == seq![
                    strip_cr(content@.subrange(i as int, j as int)),
                ] + spec_lines_from(content@, j as int + 1));
                assert(r.deep_view() + spec_lines_from(content@, j as int + 1) =~= old_deep
                    + spec_lines_from(content@, i as int));
            }
            i = j + 1;
        } else {
            proof {
                assert(content@.subrange(i as int, j as int) =~= content@.subrange(
                    i as int,
                    content@.len() as int,
                ));
                assert(spec_lines_from(content@, i as int) == seq![
                    strip_cr(content@.subrange(i as int, j as int)),
                ]);
                assert(r.deep_view() + spec_lines_from(content@, n as int) =~= old_deep
                    + spec_lines_from(content@, i as int));
            }
            i = n;
        }
    }
    proof {
        assert(r.deep_view() + spec_lines_from(content@, n as int) =~= r.deep_view());
        assert(r.deep_view() =~= spec_lines(content@));
    }
    r
}

/// Copies a range of a character vector.
pub fn chars_to_vec(v: &Vec<char>, from: usize, to: usize) -> (r: Vec<char>)
    requires
        from <= to <= v@.len(),
    ensures
        r@ == v@.subrange(from as int, to as int),
{
    let mut r: Vec<char> = Vec::new();
    let mut i: usize = from;
    while i < to
        invariant
            from <= i <= to <= v@.len(),
            r@ == v@.subrange(from as int, i as int),
        decreases to - i,
    {
        r.push(v[i]);
        proof {
            assert(r@ =~= v@.subrange(from as int, i + 1 as int));
        }
        i = i + 1;
    }
    r
}

/// Lexicographic order on character sequences, by code point.
pub open spec fn lex_le(a: Seq<char>, b: Seq<char>) -> bool
    decreases a.len(),
{
    if a.len() == 0 {
        true
    } else if b.len() == 0 {
        false
    } else if (a[0] as u32) < (b[0] as u32) {
        true
    } else if (a[0] as u32) > (b[0] as u32) {
        false
    } else {
        lex_le(a.drop_first(), b.drop_first())
    }
}

pub proof fn lemma_lex_le_total(a: Seq<char>, b: Seq<char>)
    ensures
        lex_le(a, b) || lex_le(b, a),
    decreases a.len(),
{
    if a.len() > 0 && b.len() > 0 && !((a[0] as u32) < (b[0] as u32)) && !((a[0] as u32) > (
    b[0] as u32)) {
        lemma_lex_le_total(a.drop_first(), b.drop_first());
    }
}

pub proof fn lemma_lex_le_trans(a: Seq<char>, b: Seq<char>, c: Seq<char>)
    requires
        lex_le(a, b),
        lex_le(b, c),
    ensures
        lex_le(a, c),
    decreases a.len(),
{
    if a.len() > 0 && b.len() > 0 && c.len() > 0 {
        if !((a[0] as u32) < (b[0] as u32)) && !((b[0] as u32) < (c[0] as u32)) {
            lemma_lex_le_trans(a.drop_first(), b.drop_first(), c.drop_first());
        }
    }
}

/// Compares two strings in lexicographic code-point order.
pub fn string_le(a: &String, b: &String) -> (r: bool)
    ensures
        r == lex_le(a@, b@),
{
    let av = chars_vec(a.as_str());
    let bv = chars_vec(b.as_str());
    let mut i: usize = 0;
    proof {
        assert(a@.subrange(0, a@.len() as int) =~= a@);
        assert(b@.subrange(0, b@.len() as int) =~= b@);
    }
    loop
        invariant
            i <= av@.len(),
            i <= bv@.len(),
            av@ == a@,
            bv@ == b@,
            lex_le(a@, b@) == lex_le(
                a@.subrange(i as int, a@.len() as int),
                b@.subrange(i as int, b@.len() as int),
            ),
        decreases av@.len() - i,
    {
        proof {
            assert(a@.subrange(i as int, a@.len() as int).len() == a@.len() - i);
            assert(b@.subrange(i as int, b@.len() as int).len() == b@.len() - i);
        }
        if i >= av.len() {
            return true;
        }
        if i >= bv.len() {
            return false;
        }
        let ca = av[i];
        let cb = bv[i];
        proof {
            let sa = a@.subrange(i as int, a@.len() as int);
            let sb = b@.subrange(i as int, b@.len() as int);
            assert(sa[0] == a@[i as int]);
            assert(sb[0] == b@[i as int]);
            assert(sa.drop_first() =~= a@.subrange(i as int + 1, a@.len() as int));
            assert(sb.drop_first() =~= b@.subrange(i as int + 1, b@.len() as int));
        }
        if (ca as u32) < (cb as u32) {
            return true;
        }
        if (ca as u32) > (cb as u32) {
            return false;
        }
        i = i + 1;
    }
}

/// Whether a sequence of names is sorted in lexicographic order.
pub open spec fn names_sorted(s: Seq<Seq<char>>) -> bool {
    forall|i: int, j: int| 0 <= i < j < s.len() ==> lex_le(s[i], s[j])
}

/// Inserts a name behind every entry that is at most equal to it.
pub open spec fn insert_sorted(s: Seq<Seq<char>>, x: Seq<char>) -> Seq<Seq<char>>
    decreases s.len(),
{
    if s.len() == 0 {
        seq![x]
    } else if lex_le(s[0], x) {
        seq![s[0]] + insert_sorted(s.drop_first(), x)
    } else {
        seq![x] + s
    }
}

/// The sorted arrangement of a name list: each element inserted in turn.
pub open spec fn sort_spec(s: Seq<Seq<char>>) -> Seq<Seq<char>>
    decreases s.len(),
{
    if s.len() == 0 {
        Seq::empty()
    } else {
        insert_sorted(sort_spec(s.drop_last()), s.last())
    }
}

proof fn lemma_insert_sorted_char(s: Seq<Seq<char>>, x: Seq<char>, p: int)
    requires
        0 <= p <= s.len(),
        forall|k: int| 0 <= k < p ==> lex_le(#[trigger] s[k], x),
        p < s.len() ==> !lex_le(s[p], x),
    ensures
        insert_sorted(s, x) =~= s.take(p) + seq![x] + s.skip(p),
    decreases s.len(),
{
    if s.len() == 0 {
    } else if p == 0 {
        assert(!lex_le(s[0], x));
        assert(insert_sorted(s, x) =~= seq![x] + s);
    } else {
        assert(lex_le(s[0], x));
        let t = s.drop_first();
        assert forall|k: int| 0 <= k < p - 1 implies lex_le(#[trigger] t[k], x) by {
            assert(t[k] == s[k + 1]);
        }
        if p - 1 < t.len() {
            assert(t[p - 1] == s[p]);
        }
        lemma_insert_sorted_char(t, x, p - 1);
        assert(insert_sorted(s, x) =~= seq![s[0]] + insert_sorted(t, x));
        assert(insert_sorted(t, x) =~= t.take(p - 1) + seq![x] + t.skip(p - 1));
        assert(seq![s[0]] + (t.take(p - 1) + seq![x] + t.skip(p - 1)) =~= s.take(p) + seq![x]
            + s.skip(p));
    }
}

pub fn sort_names(v: Vec<String>) -> (r: Vec<String>)
    ensures
        r.deep_view() == sort_spec(v.deep_view()),
        names_sorted(r.deep_view()),
        r.deep_view().to_multiset() == v.deep_view().to_multiset(),
        r@.len() == v@.len(),
{
    let mut r: Vec<String> = Vec::new();
    let mut idx: usize = 0;
    proof {
        assert(r.deep_view() =~= v.deep_view().take(0));
        assert(r.deep_view().to_multiset() =~= v.deep_view().take(0).to_multiset());
    }
    while idx < v.len()
        invariant
            idx <= v@.len(),
            names_sorted(r.deep_view()),
            r.deep_view() == sort_spec(v.deep_view().take(idx as int)),
            r.deep_view().to_multiset() == v.deep_view().take(idx as int).to_multiset(),
            r@.len() == idx,
        decreases v@.len() - idx,
    {
        let x = v[idx].clone();
        proof {
            assert(x@ == v.deep_view()[idx as int]);
        }
        // find the insertion point
        let mut p: usize = 0;
        while p < r.len() && string_le(&r[p], &x)
            invariant
                p <= r@.len(),
                idx < v@.len(),
                x@ == v.deep_view()[idx as int],
                forall|k: int| 0 <= k < p ==> lex_le(r.deep_view()[k], x@),
            decreases r@.len() - p,
        {
            p = p + 1;
        }
        proof {
            if p < r@.len() {
                lemma_lex_le_total(r.deep_view()[p as int], x@);
            }
        }
        let ghost old_r = r.deep_view();
        let ghost xv = x@;
        r.insert(p, x);
        proof {
            let new_r = r.deep_view();
            assert(new_r =~= old_r.insert(p as int, xv));
            lemma_insert_sorted(old_r, xv, p as int);
            lemma_insert_multiset(old_r, xv, p as int);
            lemma_push_multiset(old_r, xv);
            assert(new_r.to_multiset() == old_r.to_multiset().insert(xv));
            lemma_push_multiset(v.deep_view().take(idx as int), xv);
            assert(v.deep_view().take(idx as int + 1) =~= v.deep_view().take(idx as int).push(
                xv,
            ));
            lemma_insert_sorted_char(old_r, xv, p as int);
            assert(old_r.insert(p as int, xv) =~= old_r.take(p as int) + seq![xv] + old_r.skip(
                p as int,
            ));
            assert(new_r =~= insert_sorted(old_r, xv));
            let pre = v.deep_view().take(idx as int + 1);
            assert(pre.drop_last() =~= v.deep_view().take(idx as int));
            assert(pre.last() == xv);
            assert(new_r == sort_spec(pre));
        }
        idx = idx + 1;
    }
    proof {
        assert(v.deep_view().take(v@.len() as int) =~= v.deep_view());
    }
    r
}

proof fn lemma_insert_sorted(s: Seq<Seq<char>>, x: Seq<char>, p: int)
    requires
        0 <= p <= s.len(),
        names_sorted(s),
        forall|k: int| 0 <= k < p ==> lex_le(s[k], x),
        p < s.len() ==> lex_le(x, s[p]),
    ensures
        names_sorted(s.insert(p, x)),
{
    let t = s.insert(p, x);
    assert forall|i: int, j: int| 0 <= i < j < t.len() implies lex_le(t[i], t[j]) by {
        if i < p && j < p {
        } else if i < p && j == p {
        } else if i < p && j > p {
            assert(i < j - 1);
            assert(lex_le(s[i], s[j - 1]));
        } else if i == p && j > p {
            if p < j - 1 {
                lemma_lex_le_trans(x, s[p], s[j - 1]);
            }
        } else {
        }
    }
}

proof fn lemma_insert_multiset(s: Seq<Seq<char>>, x: Seq<char>, p: int)
    requires
        0 <= p <= s.len(),
    ensures
        s.insert(p, x).to_multiset() == s.push(x).to_multiset(),
{
    let a = s.insert(p, x);
    let b = s.push(x);
    assert(a =~= s.take(p) + seq![x] + s.skip(p));
    assert(b =~= s.take(p) + s.skip(p) + seq![x]);
    lemma_multiset_concat3(s.take(p), seq![x], s.skip(p));
    lemma_multiset_concat3(s.take(p), s.skip(p), seq![x]);
}

proof fn lemma_multiset_concat3(a: Seq<Seq<char>>, b: Seq<Seq<char>>, c: Seq<Seq<char>>)
    ensures
        (a + b + c).to_multiset() == a.to_multiset().add(b.to_multiset()).add(c.to_multiset()),
{
    (a + b).to_multiset_ensures();
    a.to_multiset_ensures();
    vstd::seq_lib::lemma_multiset_commutative(a, b);
    vstd::seq_lib::lemma_multiset_commutative(a + b, c);
}

proof fn lemma_push_multiset(s: Seq<Seq<char>>, x: Seq<char>)
    ensures
        s.push(x).to_multiset() == s.to_multiset().insert(x),
{
    s.to_multiset_ensures();
}

/// The decimal digit character for a value below ten.
pub open spec fn digit_char(d: nat) -> char {
    if d == 0 {
        '0'
    } else if d == 1 {
        '1'
    } else if d == 2 {
        '2'
    } else if d == 3 {
        '3'
    } else if d == 4 {
        '4'
    } else if d == 5 {
        '5'
    } else if d == 6 {
        '6'
    } else if d == 7 {
        '7'
    } else if d == 8 {
        '8'
    } else {
        '9'
    }
}

/// The decimal rendering of a number.
pub open spec fn spec_dec(n: nat) -> Seq<char>
    decreases n,
{
    if n < 10 {
        seq![digit_char(n)]
    } else {
        spec_dec(n / 10).push(digit_char(n % 10))
    }
}

fn digit_exec(d: u64) -> (c: char)
    requires
        d < 10,
    ensures
        c == digit_char(d as nat),
{
    if d == 0 {
        '0'
    } else if d == 1 {
        '1'
    } else if d == 2 {
        '2'
    } else if d == 3 {
        '3'
    } else if d == 4 {
        '4'
    } else if d == 5 {
        '5'
    } else if d == 6 {
        '6'
    } else if d == 7 {
        '7'
    } else if d == 8 {
        '8'
    } else {
        '9'
    }
}

/// Renders a number in decimal.
pub fn dec_u64(n: u64) -> (s: String)
    ensures
        s@ == spec_dec(n as nat),
    decreases n,
{
    if n < 10 {
        let mut s = String::new();
        push_char(&mut s, digit_exec(n));
        proof {
            assert(s@ =~= spec_dec(n as nat));
        }
        s
    } else {
        let mut s = dec_u64(n / 10);
        push_char(&mut s, digit_exec(n % 10));
        s
    }
}

/// Appends one string slice to a `String` (the vstd exec helper, re-exported
/// here under a single name so callers need one import).
pub fn push_str(s: &mut String, t: &str)
    ensures
        final(s)@ == old(s)@ + t@,
{
    s.append(t);
}

/// End of the maximal run of characters satisfying `pred`, starting at `i`.
pub open spec fn run_end(s: Seq<char>, i: int, pred: spec_fn(char) -> bool) -> int
    decreases s.len() - i when 0 <= i
{
    if i >= s.len() {
        i
    } else if !pred(s[i]) {
        i
    } else {
        run_end(s, i + 1, pred)
    }
}

pub proof fn lemma_run_end_bounds(s: Seq<char>, i: int, pred: spec_fn(char) -> bool)
    requires
        0 <= i <= s.len(),
    ensures
        i <= run_end(s, i, pred) <= s.len(),
        forall|k: int| i <= k < run_end(s, i, pred) ==> pred(s[k]),
        run_end(s, i, pred) < s.len() ==> !pred(s[run_end(s, i, pred)]),
    decreases s.len() - i,
{
    if i < s.len() && pred(s[i]) {
        lemma_run_end_bounds(s, i + 1, pred);
    }
}

/// Pins `run_end` down from a pointwise description of the run.
pub proof fn lemma_run_end_char(s: Seq<char>, i: int, j: int, pred: spec_fn(char) -> bool)
    requires
        0 <= i <= j <= s.len(),
        forall|k: int| i <= k < j ==> pred(s[k]),
        j < s.len() ==> !pred(s[j]),
    ensures
        run_end(s, i, pred) == j,
    decreases j - i,
{
    if i < j {
        lemma_run_end_char(s, i + 1, j, pred);
    }
}

/// Character-sequence equality of two vectors.
pub fn chars_eq(a: &Vec<char>, b: &Vec<char>) -> (r: bool)
    ensures
        r == (a@ == b@),
{
    if a.len() != b.len() {
        return false;
    }
    let mut k: usize = 0;
    while k < a.len()
        invariant
            k <= a@.len(),
            a@.len() == b@.len(),
            forall|m: int| 0 <= m < k ==> a@[m] == b@[m],
        decreases a@.len() - k,
    {
        if a[k] != b[k] {
            return false;
        }
        k = k + 1;
    }
    proof {
        assert(a@ =~= b@);
    }
    true
}

/// String equality through the character view.
pub fn str_eq(a: &str, b: &str) -> (r: bool)
    ensures
        r == (a@ == b@),
{
    let av = chars_vec(a);
    let bv = chars_vec(b);
    chars_eq(&av, &bv)
}

/// Whether a vector of strings holds the given name.
pub fn vec_contains_string(v: &Vec<String>, s: &str) -> (r: bool)
    ensures
        r == v.deep_view().contains(s@),
{
    let mut i: usize = 0;
    while i < v.len()
        invariant
            i <= v@.len(),
            forall|m: int| 0 <= m < i ==> v.deep_view()[m] != s@,
        decreases v@.len() - i,
    {
        if str_eq(v[i].as_str(), s) {
            proof {
                assert(v.deep_view()[i as int] == s@);
            }
            return true;
        }
        i = i + 1;
    }
    proof {
        assert forall|m: int| 0 <= m < v.deep_view().len() implies v.deep_view()[m] != s@ by {}
        assert(!v.deep_view().contains(s@));
    }
    false
}

/// An exact match of `pat` inside `s` at position `i`.
pub open spec fn lit_match_at(s: Seq<char>, i: int, pat: Seq<char>) -> bool {
    0 <= i && i + pat.len() <= s.len() && forall|k: int| 0 <= k < pat.len() ==> s[i + k] == pat[k]
}

/// A case-insensitive match of the lowercase pattern `pat` at position `i`.
pub open spec fn ci_lit_match_at(s: Seq<char>, i: int, pat: Seq<char>) -> bool {
    0 <= i && i + pat.len() <= s.len() && forall|k: int|
        0 <= k < pat.len() ==> ci_char_eq(s[i + k], pat[k])
}

pub fn lit_match(line: &Vec<char>, i: usize, pat: &Vec<char>) -> (r: bool)
    requires
        i <= line@.len(),
    ensures
        r == lit_match_at(line@, i as int, pat@),
{
    let n = line.len();
    if n - i < pat.len() {
        return false;
    }
    let mut k: usize = 0;
    let mut j: usize = i;
    while k < pat.len()
        invariant
            k <= pat@.len(),
            j == i + k,
            n == line@.len(),
            i + pat@.len() <= line@.len(),
            forall|m: int| 0 <= m < k ==> line@[i + m] == pat@[m],
        decreases pat@.len() - k,
    {
        if line[j] != pat[k] {
            return false;
        }
        k = k + 1;
        j = j + 1;
    }
    true
}

pub fn ci_lit_match(line: &Vec<char>, i: usize, pat: &Vec<char>) -> (r: bool)
    requires
        i <= line@.len(),
    ensures
        r == ci_lit_match_at(line@, i as int, pat@),
{
    let n = line.len();
    if n - i < pat.len() {
        return false;
    }
    let mut k: usize = 0;
    let mut j: usize = i;
    while k < pat.len()
        invariant
            k <= pat@.len(),
            j == i + k,
            n == line@.len(),
            i + pat@.len() <= line@.len(),
            forall|m: int| 0 <= m < k ==> ci_char_eq(line@[i + m], pat@[m]),
        decreases pat@.len() - k,
    {
        if !ci_char_match(line[j], pat[k]) {
            return false;
        }
        k = k + 1;
        j = j + 1;
    }
    true
}

/// Whether `pat` occurs anywhere in `s`, compared exactly.
pub open spec fn lit_contains(s: Seq<char>, pat: Seq<char>) -> bool {
    exists|q: int| lit_match_at(s, q, pat)
}

pub fn lit_contains_exec(line: &Vec<char>, pat: &Vec<char>) -> (r: bool)
    ensures
        r == lit_contains(line@, pat@),
{
    if pat.len() == 0 {
        proof {
            assert(lit_match_at(line@, 0, pat@));
        }
        return true;
    }
    let mut q: usize = 0;
    while q < line.len()
        invariant
            q <= line@.len(),
            forall|m: int| 0 <= m < q ==> !lit_match_at(line@, m, pat@),
        decreases line@.len() - q,
    {
        if lit_match(line, q, pat) {
            return true;
        }
        q = q + 1;
    }
    proof {
        assert forall|m: int| !lit_match_at(line@, m, pat@) by {
            if 0 <= m && m + pat@.len() <= line@.len() {
                assert(m < line@.len());
            }
        }
    }
    false
}

/// A deep copy of a vector of strings.
pub fn clone_names(v: &Vec<String>) -> (r: Vec<String>)
    ensures
        r.deep_view() == v.deep_view(),
{
    let mut r: Vec<String> = Vec::new();
    let mut i: usize = 0;
    while i < v.len()
        invariant
            i <= v@.len(),
            r.deep_view() =~= v.deep_view().take(i as int),
        decreases v@.len() - i,
    {
        let ghost prev = r.deep_view();
        r.push(v[i].clone());
        proof {
            assert(r.deep_view() =~~= prev.push(v.deep_view()[i as int]));
            assert(r.deep_view() =~= v.deep_view().take(i as int + 1));
        }
        i = i + 1;
    }
    proof {
        assert(v.deep_view().take(v.deep_view().len() as int) =~= v.deep_view());
    }
    r
}

/// Whether the lowercase pattern occurs anywhere in the line, compared
/// case-insensitively.
pub open spec fn ci_contains(s: Seq<char>, pat: Seq<char>) -> bool {
    exists|q: int| ci_lit_match_at(s, q, pat)
}

pub fn ci_contains_exec(line: &Vec<char>, pat: &Vec<char>) -> (r: bool)
    ensures
        r == ci_contains(line@, pat@),
{
    if pat.len() == 0 {
        proof {
            assert(ci_lit_match_at(line@, 0, pat@));
        }
        return true;
    }
    let mut q: usize = 0;
    while q < line.len()
        invariant
            q <= line@.len(),
            forall|m: int| 0 <= m < q ==> !ci_lit_match_at(line@, m, pat@),
        decreases line@.len() - q,
    {
        if ci_lit_match(line, q, pat) {
            return true;
        }
        q = q + 1;
    }
    proof {
        assert forall|m: int| !ci_lit_match_at(line@, m, pat@) by {
            if 0 <= m && m + pat@.len() <= line@.len() {
                assert(m < line@.len());
            }
        }
    }
    false
}

} // verus!
