//! Character-level text utilities shared by the parsers.
use vstd::prelude::*;
use vstd::std_specs::iter::IteratorSpec;
use crate::fragment::names_view;

verus! {

/// The characters of `s`, in order.
pub fn chars_of(s: &str) -> (v: Vec<char>)
    ensures
        v@ == s@,
{
    let mut it = s.chars();
    let mut v: Vec<char> = Vec::new();
    proof {
        vstd::string::axiom_spec_iter(s);
    }
    loop
        invariant
            v@ + it.remaining() == s@,
            it.obeys_prophetic_iter_laws(),
            it.decrease() is Some,
        decreases it.decrease()->0,
    {
        let ghost before = it;
        match it.next() {
            Some(c) => {
                proof { vstd::string::next_postcondition(&before, &it, Some(c)); }
                v.push(c);
            },
            None => {
                proof { vstd::string::next_postcondition(&before, &it, None); }
                return v;
            },
        }
    }
}

/// `a` and `b` agree before `k`, where `a` ends first or has the smaller character.
pub open spec fn lt_at(a: Seq<char>, b: Seq<char>, k: int) -> bool {
    &&& 0 <= k <= a.len() && k <= b.len()
    &&& forall|i: int| 0 <= i < k ==> a[i] == b[i]
    &&& (k == a.len() && k < b.len()) || (k < a.len() && k < b.len() && (a[k] as u32) < (b[k] as u32))
}

/// `a` sorts strictly before `b`: at the first position where they differ, `a` has the
/// smaller character, or `a` is a proper prefix of `b` (the order of `String`).
pub open spec fn seq_lt(a: Seq<char>, b: Seq<char>) -> bool {
    exists|k: int| #[trigger] lt_at(a, b, k)
}

/// Every name sorts strictly before the ones after it.
pub open spec fn strictly_sorted(s: Seq<Seq<char>>) -> bool {
    forall|i: int, j: int| 0 <= i < j < s.len() ==> seq_lt(#[trigger] s[i], #[trigger] s[j])
}

/// The order on names is transitive.
pub proof fn lemma_seq_lt_trans(a: Seq<char>, b: Seq<char>, c: Seq<char>)
    requires
        seq_lt(a, b),
        seq_lt(b, c),
    ensures
        seq_lt(a, c),
{
    let k1 = choose|k: int| #[trigger] lt_at(a, b, k);
    let k2 = choose|k: int| #[trigger] lt_at(b, c, k);
    let k = if k1 <= k2 { k1 } else { k2 };
    assert(forall|i: int| 0 <= i < k ==> a[i] == c[i]);
    if k1 < k2 {
        assert(b[k1] == c[k1]);
    } else if k2 < k1 {
        assert(a[k2] == b[k2]);
    }
    assert(lt_at(a, c, k));
}

/// The order on names is irreflexive.
pub proof fn lemma_seq_lt_irrefl(a: Seq<char>)
    ensures
        !seq_lt(a, a),
{
    assert forall|k: int| !lt_at(a, a, k) by {}
}

/// Two strictly sorted lists of the same names are the same list.
pub proof fn lemma_sorted_unique(a: Seq<Seq<char>>, b: Seq<Seq<char>>)
    requires
        strictly_sorted(a),
        strictly_sorted(b),
        forall|x: Seq<char>| #![trigger a.contains(x)] #![trigger b.contains(x)] a.contains(x) <==> b.contains(x),
    ensures
        a == b,
    decreases a.len(),
{
    if a.len() == 0 {
        if b.len() > 0 {
            assert(b.contains(b[0]));
            assert(a.contains(b[0]));
        }
        assert(a =~= b);
    } else {
        assert(a.contains(a[0]));
        let j = choose|j: int| 0 <= j < b.len() && b[j] == a[0];
        assert(b.contains(b[0]));
        assert(a.contains(b[0]));
        let i = choose|i: int| 0 <= i < a.len() && a[i] == b[0];
        if j > 0 {
            assert(seq_lt(b[0], b[j]));
            if i > 0 {
                assert(seq_lt(a[0], a[i]));
                lemma_seq_lt_trans(a[0], a[i], a[0]);
            }
            lemma_seq_lt_irrefl(a[0]);
        }
        let a1 = a.drop_first();
        let b1 = b.drop_first();
        assert forall|x: Seq<char>| #![trigger a1.contains(x)] #![trigger b1.contains(x)] a1.contains(x) <==> b1.contains(x) by {
            if a1.contains(x) {
                let k = choose|k: int| 0 <= k < a1.len() && a1[k] == x;
                assert(a[k + 1] == x);
                assert(seq_lt(a[0], a[k + 1]));
                lemma_seq_lt_irrefl(a[0]);
                assert(a.contains(x));
                let m = choose|m: int| 0 <= m < b.len() && b[m] == x;
                assert(m != 0);
                assert(b1[m - 1] == x);
            }
            if b1.contains(x) {
                let k = choose|k: int| 0 <= k < b1.len() && b1[k] == x;
                assert(b[k + 1] == x);
                assert(seq_lt(b[0], b[k + 1]));
                lemma_seq_lt_irrefl(b[0]);
                assert(b.contains(x));
                let m = choose|m: int| 0 <= m < a.len() && a[m] == x;
                assert(m != 0);
                assert(a1[m - 1] == x);
            }
        }
        assert forall|p: int, q: int| 0 <= p < q < a1.len() implies seq_lt(#[trigger] a1[p], #[trigger] a1[q]) by {
            assert(a1[p] == a[p + 1] && a1[q] == a[q + 1]);
        }
        assert forall|p: int, q: int| 0 <= p < q < b1.len() implies seq_lt(#[trigger] b1[p], #[trigger] b1[q]) by {
            assert(b1[p] == b[p + 1] && b1[q] == b[q + 1]);
        }
        lemma_sorted_unique(a1, b1);
        assert(a =~= b) by {
            assert forall|k: int| 0 <= k < a.len() implies a[k] == b[k] by {
                if k > 0 {
                    assert(a[k] == a1[k - 1]);
                    assert(b[k] == b1[k - 1]);
                }
            }
        }
    }
}

/// How two names compare.
pub enum Cmp3 {
    Less,
    Equal,
    Greater,
}

/// Compare two names in the order of `String`.
pub fn compare_str(a: &str, b: &str) -> (r: Cmp3)
    ensures
        r is Less <==> seq_lt(a@, b@),
        r is Greater <==> seq_lt(b@, a@),
        r is Equal <==> a@ == b@,
{
    let x = chars_of(a);
    let y = chars_of(b);
    let mut i: usize = 0;
    while i < x.len() && i < y.len() && x[i] == y[i]
        invariant
            x@ == a@,
            y@ == b@,
            i <= x@.len(),
            i <= y@.len(),
            forall|j: int| 0 <= j < i ==> x@[j] == y@[j],
        decreases x@.len() - i,
    {
        i += 1;
    }
    let ghost ii = i as int;
    proof {
        assert forall|k: int| #[trigger] lt_at(a@, b@, k) implies k == ii by {
            if k > ii {
                assert(a@[ii] == b@[ii]);
            }
        }
        assert forall|k: int| #[trigger] lt_at(b@, a@, k) implies k == ii by {
            if k > ii {
                assert(a@[ii] == b@[ii]);
            }
        }
        lemma_seq_lt_irrefl(a@);
    }
    if i == x.len() && i == y.len() {
        assert(a@ =~= b@);
        Cmp3::Equal
    } else if i == x.len() {
        assert(lt_at(a@, b@, ii));
        Cmp3::Less
    } else if i == y.len() {
        assert(lt_at(b@, a@, ii));
        Cmp3::Greater
    } else if (x[i] as u32) < (y[i] as u32) {
        assert(lt_at(a@, b@, ii));
        Cmp3::Less
    } else {
        assert(x@[ii] != y@[ii]);
        proof {
            vstd::utf8::char_u32_cast(x@[ii], x@[ii] as u32);
            vstd::utf8::char_u32_cast(y@[ii], y@[ii] as u32);
        }
        assert((x@[ii] as u32) != (y@[ii] as u32));
        assert(lt_at(b@, a@, ii));
        Cmp3::Greater
    }
}

/// Insert `s` into the strictly sorted `v`, unless it is already there.
pub fn insert_sorted(v: &mut Vec<String>, s: String)
    requires
        strictly_sorted(names_view(old(v)@)),
    ensures
        strictly_sorted(names_view(final(v)@)),
        forall|x: Seq<char>| #[trigger] names_view(final(v)@).contains(x)
            <==> (names_view(old(v)@).contains(x) || x == s@),
{
    let ghost vv = names_view(v@);
    let mut p: usize = 0;
    while p < v.len()
        invariant
            vv == names_view(v@),
            strictly_sorted(vv),
            p <= v@.len(),
            forall|i: int| 0 <= i < p ==> seq_lt(#[trigger] vv[i], s@),
        ensures
            p <= v@.len(),
            forall|i: int| 0 <= i < p ==> seq_lt(#[trigger] vv[i], s@),
            p == v@.len() || seq_lt(s@, vv[p as int]),
        decreases v@.len() - p,
    {
        match compare_str(v[p].as_str(), s.as_str()) {
            Cmp3::Less => {
                p += 1;
            },
            Cmp3::Equal => {
                proof {
                    assert(vv[p as int] == s@);
                }
                return;
            },
            Cmp3::Greater => {
                break;
            },
        }
    }
    let ghost s_v = s@;
    v.insert(p, s);
    proof {
        let nv = names_view(v@);
        assert(nv =~= vv.insert(p as int, s_v));
        assert forall|i: int, j: int| 0 <= i < j < nv.len() implies seq_lt(#[trigger] nv[i], #[trigger] nv[j]) by {
            if j < p {
            } else if j == p {
            } else if i < p {
                assert(nv[j] == vv[j - 1]);
                assert(seq_lt(s_v, vv[p as int]));
                if j - 1 > p {
                    lemma_seq_lt_trans(s_v, vv[p as int], vv[j - 1]);
                }
                lemma_seq_lt_trans(vv[i], s_v, vv[j - 1]);
            } else if i == p {
                assert(nv[j] == vv[j - 1]);
                if j - 1 > p {
                    lemma_seq_lt_trans(s_v, vv[p as int], vv[j - 1]);
                }
            } else {
                assert(nv[i] == vv[i - 1]);
                assert(nv[j] == vv[j - 1]);
            }
        }
        assert forall|x: Seq<char>| nv.contains(x) <==> (vv.contains(x) || x == s_v) by {
            if nv.contains(x) {
                let i = choose|i: int| 0 <= i < nv.len() && nv[i] == x;
                if i < p { assert(vv[i] == x); } else if i > p { assert(vv[i - 1] == x); }
            }
            if vv.contains(x) {
                let i = choose|i: int| 0 <= i < vv.len() && vv[i] == x;
                if i < p { assert(nv[i] == x); } else { assert(nv[i + 1] == x); }
            }
            if x == s_v {
                assert(nv[p as int] == x);
            }
        }
    }
}

/// `char::is_whitespace`: the Unicode `White_Space` property.
pub open spec fn is_ws(c: char) -> bool {
    let u = c as u32;
    (0x9 <= u <= 0xD) || u == 0x20 || u == 0x85 || u == 0xA0 || u == 0x1680 || (0x2000 <= u <= 0x200A)
        || u == 0x2028 || u == 0x2029 || u == 0x202F || u == 0x205F || u == 0x3000
}

/// Whether `c` is whitespace.
pub fn is_whitespace(c: char) -> (r: bool)
    ensures
        r == is_ws(c),
{
    let u = c as u32;
    (0x9 <= u && u <= 0xD) || u == 0x20 || u == 0x85 || u == 0xA0 || u == 0x1680 || (0x2000 <= u && u <= 0x200A)
        || u == 0x2028 || u == 0x2029 || u == 0x202F || u == 0x205F || u == 0x3000
}

/// `s` with leading whitespace removed.
pub open spec fn trim_start(s: Seq<char>) -> Seq<char>
    decreases s.len(),
{
    if s.len() > 0 && is_ws(s[0]) {
        trim_start(s.drop_first())
    } else {
        s
    }
}

/// `s` with trailing whitespace removed.
pub open spec fn trim_end(s: Seq<char>) -> Seq<char>
    decreases s.len(),
{
    if s.len() > 0 && is_ws(s.last()) {
        trim_end(s.drop_last())
    } else {
        s
    }
}

/// `str::trim`.
pub open spec fn trim(s: Seq<char>) -> Seq<char> {
    trim_end(trim_start(s))
}

/// The first index from `i` on that ends the word starting there (whitespace or the end).
pub open spec fn word_end(s: Seq<char>, i: int) -> int
    decreases s.len() - i,
{
    if i < 0 || i >= s.len() || is_ws(s[i]) {
        i
    } else {
        word_end(s, i + 1)
    }
}

/// A word ends no earlier than it starts, and after it when it starts on a non-space.
pub proof fn lemma_word_end(s: Seq<char>, i: int)
    requires
        0 <= i <= s.len(),
    ensures
        i <= word_end(s, i) <= s.len(),
        i < s.len() && !is_ws(s[i]) ==> i < word_end(s, i),
        word_end(s, i) < s.len() ==> is_ws(s[word_end(s, i)]),
        forall|j: int| i <= j < word_end(s, i) ==> !is_ws(#[trigger] s[j]),
    decreases s.len() - i,
{
    if i < s.len() && !is_ws(s[i]) {
        lemma_word_end(s, i + 1);
    }
}

/// The whitespace-separated tokens of `s` from index `i` on (`str::split_whitespace`).
pub open spec fn tokens_from(s: Seq<char>, i: int) -> Seq<Seq<char>>
    decreases s.len() - i,
{
    if i < 0 || i >= s.len() {
        Seq::empty()
    } else if is_ws(s[i]) {
        tokens_from(s, i + 1)
    } else {
        let k = word_end(s, i);
        if k <= i || k > s.len() {
            Seq::empty()
        } else {
            seq![s.subrange(i, k)] + tokens_from(s, k)
        }
    }
}

/// `str::split_whitespace`.
pub open spec fn tokens(s: Seq<char>) -> Seq<Seq<char>> {
    tokens_from(s, 0)
}

/// `s` with leading `<`s removed, then trailing `>`s (`trim_start_matches`, `trim_end_matches`).
pub open spec fn strip_angles_spec(s: Seq<char>) -> Seq<char> {
    drop_trailing(drop_leading(s, '<'), '>')
}

/// `s` with every leading `c` removed.
pub open spec fn drop_leading(s: Seq<char>, c: char) -> Seq<char>
    decreases s.len(),
{
    if s.len() > 0 && s[0] == c {
        drop_leading(s.drop_first(), c)
    } else {
        s
    }
}

/// `s` with every trailing `c` removed.
pub open spec fn drop_trailing(s: Seq<char>, c: char) -> Seq<char>
    decreases s.len(),
{
    if s.len() > 0 && s.last() == c {
        drop_trailing(s.drop_last(), c)
    } else {
        s
    }
}

/// Append `c` to `s` (`String::push`).
#[verifier::external_body]
pub fn push_char(s: &mut String, c: char)
    ensures
        final(s)@ == old(s)@.push(c),
{
    s.push(c);
}

/// The string of `v[a..b]`.
pub fn string_of(v: &Vec<char>, a: usize, b: usize) -> (r: String)
    requires
        a <= b <= v@.len(),
    ensures
        r@ == v@.subrange(a as int, b as int),
{
    let mut r = String::new();
    let mut i = a;
    while i < b
        invariant
            a <= i <= b <= v@.len(),
            r@ == v@.subrange(a as int, i as int),
        decreases b - i,
    {
        push_char(&mut r, v[i]);
        i += 1;
        assert(r@ =~= v@.subrange(a as int, i as int));
    }
    r
}

/// The index range `[a, b)` of `v` with whitespace trimmed off both ends.
pub fn trim_range(v: &Vec<char>, a: usize, b: usize) -> (r: (usize, usize))
    requires
        a <= b <= v@.len(),
    ensures
        a <= r.0 <= r.1 <= b,
        v@.subrange(r.0 as int, r.1 as int) == trim(v@.subrange(a as int, b as int)),
{
    let mut i = a;
    while i < b && is_whitespace(v[i])
        invariant
            a <= i <= b <= v@.len(),
            trim_start(v@.subrange(a as int, b as int)) == trim_start(v@.subrange(i as int, b as int)),
        decreases b - i,
    {
        assert(v@.subrange(i as int, b as int).drop_first() =~= v@.subrange(i + 1, b as int));
        i += 1;
    }
    assert(trim_start(v@.subrange(i as int, b as int)) == v@.subrange(i as int, b as int));
    let mut j = b;
    while j > i && is_whitespace(v[j - 1])
        invariant
            a <= i <= j <= b <= v@.len(),
            trim_end(v@.subrange(i as int, b as int)) == trim_end(v@.subrange(i as int, j as int)),
        decreases j - i,
    {
        assert(v@.subrange(i as int, j as int).drop_last() =~= v@.subrange(i as int, j - 1));
        j -= 1;
    }
    (i, j)
}

/// The tokens of `v[a..b]`, each with its angle brackets stripped.
pub fn split_tokens(v: &Vec<char>, a: usize, b: usize) -> (r: Vec<String>)
    requires
        a <= b <= v@.len(),
    ensures
        names_view(r@) == tokens(v@.subrange(a as int, b as int)).map_values(|t: Seq<char>| strip_angles_spec(t)),
{
    let ghost s = v@.subrange(a as int, b as int);
    let mut out: Vec<String> = Vec::new();
    let mut i = a;
    while i < b
        invariant
            a <= i <= b <= v@.len(),
            s == v@.subrange(a as int, b as int),
            names_view(out@) + tokens_from(s, i - a).map_values(|t: Seq<char>| strip_angles_spec(t))
                == tokens(s).map_values(|t: Seq<char>| strip_angles_spec(t)),
        decreases b - i,
    {
        let ghost ii = (i - a) as int;
        if is_whitespace(v[i]) {
            assert(s[ii] == v@[i as int]);
            i += 1;
        } else {
            let mut k = i;
            while k < b && !is_whitespace(v[k])
                invariant
                    i <= k <= b <= v@.len(),
                    forall|j: int| i <= j < k ==> !is_ws(#[trigger] v@[j]),
                decreases b - k,
            {
                k += 1;
            }
            proof {
                assert(s[ii] == v@[i as int]);
                lemma_word_end(s, ii);
                assert(word_end(s, ii) == k - a) by {
                    lemma_word_end_at(s, ii, k - a);
                }
                assert(s.subrange(ii, k - a) =~= v@.subrange(i as int, k as int));
            }
            let w = strip_angles(v, i, k);
            let ghost before = names_view(out@);
            out.push(w);
            proof {
                assert(names_view(out@) =~= before.push(strip_angles_spec(s.subrange(ii, k - a))));
                let rest = tokens_from(s, k - a).map_values(|t: Seq<char>| strip_angles_spec(t));
                assert(tokens_from(s, ii).map_values(|t: Seq<char>| strip_angles_spec(t))
                    =~= seq![strip_angles_spec(s.subrange(ii, k - a))] + rest);
                assert(names_view(out@) + rest =~= before + (seq![strip_angles_spec(s.subrange(ii, k - a))] + rest));
            }
            i = k;
        }
    }
    proof {
        assert(names_view(out@) + tokens_from(s, i - a).map_values(|t: Seq<char>| strip_angles_spec(t)) =~= names_view(out@));
    }
    out
}

/// `word_end` is the first whitespace (or the end) at or after `i`.
pub proof fn lemma_word_end_at(s: Seq<char>, i: int, k: int)
    requires
        0 <= i <= k <= s.len(),
        forall|j: int| i <= j < k ==> !is_ws(#[trigger] s[j]),
        k == s.len() || is_ws(s[k]),
    ensures
        word_end(s, i) == k,
    decreases k - i,
{
    if i < k {
        lemma_word_end_at(s, i + 1, k);
    }
}

/// `v[a..b]` with leading `<`s and trailing `>`s removed.
pub fn strip_angles(v: &Vec<char>, a: usize, b: usize) -> (r: String)
    requires
        a <= b <= v@.len(),
    ensures
        r@ == strip_angles_spec(v@.subrange(a as int, b as int)),
{
    let mut i = a;
    while i < b && v[i] == '<'
        invariant
            a <= i <= b <= v@.len(),
            drop_leading(v@.subrange(a as int, b as int), '<') == drop_leading(v@.subrange(i as int, b as int), '<'),
        decreases b - i,
    {
        assert(v@.subrange(i as int, b as int).drop_first() =~= v@.subrange(i + 1, b as int));
        i += 1;
    }
    let mut j = b;
    while j > i && v[j - 1] == '>'
        invariant
            a <= i <= j <= b <= v@.len(),
            drop_trailing(v@.subrange(i as int, b as int), '>') == drop_trailing(v@.subrange(i as int, j as int), '>'),
        decreases j - i,
    {
        assert(v@.subrange(i as int, j as int).drop_last() =~= v@.subrange(i as int, j - 1));
        j -= 1;
    }
    string_of(v, i, j)
}

/// The character of the decimal digit `d`.
pub open spec fn digit_char(d: nat) -> char {
    if d == 0 { '0' } else if d == 1 { '1' } else if d == 2 { '2' } else if d == 3 { '3' }
    else if d == 4 { '4' } else if d == 5 { '5' } else if d == 6 { '6' } else if d == 7 { '7' }
    else if d == 8 { '8' } else { '9' }
}

/// The decimal digit a character stands for, if it is one.
pub open spec fn digit_value(c: char) -> Option<nat> {
    if c == '0' { Some(0) } else if c == '1' { Some(1) } else if c == '2' { Some(2) } else if c == '3' { Some(3) }
    else if c == '4' { Some(4) } else if c == '5' { Some(5) } else if c == '6' { Some(6) } else if c == '7' { Some(7) }
    else if c == '8' { Some(8) } else if c == '9' { Some(9) } else { None }
}

/// The decimal rendering of `n` (`{}` of an unsigned integer).
pub open spec fn decimal(n: nat) -> Seq<char>
    decreases n,
{
    if n < 10 {
        seq![digit_char(n)]
    } else {
        decimal(n / 10).push(digit_char(n % 10))
    }
}

fn digit(d: u64) -> (c: char)
    requires
        d < 10,
    ensures
        c == digit_char(d as nat),
{
    match d {
        0 => '0',
        1 => '1',
        2 => '2',
        3 => '3',
        4 => '4',
        5 => '5',
        6 => '6',
        7 => '7',
        8 => '8',
        _ => '9',
    }
}

/// `n` in decimal.
pub fn fmt_u64(n: u64) -> (r: String)
    ensures
        r@ == decimal(n as nat),
    decreases n,
{
    if n < 10 {
        let mut s = String::new();
        push_char(&mut s, digit(n));
        assert(s@ =~= seq![digit_char(n as nat)]);
        s
    } else {
        let mut s = fmt_u64(n / 10);
        push_char(&mut s, digit(n % 10));
        s
    }
}

/// The value of a string of decimal digits.
pub open spec fn digits_value(s: Seq<char>) -> nat
    decreases s.len(),
{
    if s.len() == 0 {
        0
    } else {
        digits_value(s.drop_last()) * 10 + match digit_value(s.last()) { Some(d) => d, None => 0 }
    }
}

/// Every character is a decimal digit.
pub open spec fn all_digits(s: Seq<char>) -> bool {
    forall|i: int| 0 <= i < s.len() ==> (#[trigger] digit_value(s[i])) is Some
}

/// `u32::from_str`: an optional `+`, then one or more decimal digits, whose value fits.
pub open spec fn parse_u32_spec(s: Seq<char>) -> Option<u32> {
    let body = if s.len() > 0 && s[0] == '+' { s.drop_first() } else { s };
    if body.len() > 0 && all_digits(body) && digits_value(body) <= u32::MAX {
        Some(digits_value(body) as u32)
    } else {
        None
    }
}

fn digit_of(c: char) -> (r: Option<u64>)
    ensures
        match digit_value(c) {
            Some(d) => r == Some(d as u64),
            None => r is None,
        },
{
    match c {
        '0' => Some(0),
        '1' => Some(1),
        '2' => Some(2),
        '3' => Some(3),
        '4' => Some(4),
        '5' => Some(5),
        '6' => Some(6),
        '7' => Some(7),
        '8' => Some(8),
        '9' => Some(9),
        _ => None,
    }
}

/// Parse `s` as a `u32` the way `str::parse::<u32>` does.
pub fn parse_u32(s: &String) -> (r: Option<u32>)
    ensures
        r == parse_u32_spec(s@),
{
    let v = chars_of(s.as_str());
    let start: usize = if v.len() > 0 && v[0] == '+' { 1 } else { 0 };
    let ghost body = if s@.len() > 0 && s@[0] == '+' { s@.drop_first() } else { s@ };
    assert(body =~= v@.subrange(start as int, v@.len() as int));
    if start >= v.len() {
        return None;
    }
    let cap: u64 = 0x1_0000_0000;
    let mut acc: u64 = 0;
    let mut i = start;
    while i < v.len()
        invariant
            start <= i <= v@.len(),
            body == v@.subrange(start as int, v@.len() as int),
            body == (if s@.len() > 0 && s@[0] == '+' { s@.drop_first() } else { s@ }),
            all_digits(v@.subrange(start as int, i as int)),
            acc as nat == if digits_value(v@.subrange(start as int, i as int)) < cap { digits_value(v@.subrange(start as int, i as int)) } else { cap as nat },
            cap == 0x1_0000_0000,
        decreases v@.len() - i,
    {
        let ghost pre = v@.subrange(start as int, i as int);
        let ghost nxt = v@.subrange(start as int, i + 1);
        assert(nxt.drop_last() =~= pre);
        match digit_of(v[i]) {
            None => {
                assert(!all_digits(body)) by {
                    assert(body[i - start] == v@[i as int]);
                    assert(digit_value(body[i - start]) is None);
                }
                return None;
            },
            Some(d) => {
                assert(digits_value(nxt) == digits_value(pre) * 10 + d);
                acc = if acc * 10 + d < cap { acc * 10 + d } else { cap };
                assert forall|j: int| 0 <= j < nxt.len() implies (#[trigger] digit_value(nxt[j])) is Some by {
                    if j < pre.len() { assert(nxt[j] == pre[j]); }
                }
            },
        }
        i += 1;
    }
    assert(v@.subrange(start as int, i as int) =~= body);
    if acc < cap {
        Some(acc as u32)
    } else {
        None
    }
}

/// The `Debug` rendering of a character: quoted, with escapes.
pub uninterp spec fn char_debug(c: char) -> Seq<char>;

/// The `Debug` rendering of a string: quoted, with escapes.
pub uninterp spec fn str_debug(s: Seq<char>) -> Seq<char>;

/// `format!("{:?}", c)`.
#[verifier::external_body]
pub fn debug_char(c: char) -> (r: String)
    ensures
        r@ == char_debug(c),
{
    format!("{:?}", c)
}

/// `format!("{:?}", s)`.
#[verifier::external_body]
pub fn debug_str(s: &str) -> (r: String)
    ensures
        r@ == str_debug(s@),
{
    format!("{:?}", s)
}

/// Whether `t` spells `lit`.
pub fn eq_str(t: &str, lit: &str) -> (r: bool)
    ensures
        r == (t@ == lit@),
{
    match compare_str(t, lit) {
        Cmp3::Equal => true,
        _ => false,
    }
}

/// `a` followed by `b`.
pub fn cat(a: String, b: &str) -> (r: String)
    ensures
        r@ == a@ + b@,
{
    let mut a = a;
    a.append(b);
    a
}

/// The whitespace-separated words of `v[a..b]`.
pub fn split_words(v: &Vec<char>, a: usize, b: usize) -> (r: Vec<String>)
    requires
        a <= b <= v@.len(),
    ensures
        names_view(r@) == tokens(v@.subrange(a as int, b as int)),
{
    let ghost s = v@.subrange(a as int, b as int);
    let mut out: Vec<String> = Vec::new();
    let mut i = a;
    while i < b
        invariant
            a <= i <= b <= v@.len(),
            s == v@.subrange(a as int, b as int),
            names_view(out@) + tokens_from(s, i - a) == tokens(s),
        decreases b - i,
    {
        let ghost ii = (i - a) as int;
        if is_whitespace(v[i]) {
            assert(s[ii] == v@[i as int]);
            i += 1;
        } else {
            let mut k = i;
            while k < b && !is_whitespace(v[k])
                invariant
                    i <= k <= b <= v@.len(),
                    forall|j: int| i <= j < k ==> !is_ws(#[trigger] v@[j]),
                decreases b - k,
            {
                k += 1;
            }
            proof {
                assert(s[ii] == v@[i as int]);
                lemma_word_end(s, ii);
                assert(word_end(s, ii) == k - a) by {
                    lemma_word_end_at(s, ii, k - a);
                }
                assert(s.subrange(ii, k - a) =~= v@.subrange(i as int, k as int));
            }
            let w = string_of(v, i, k);
            let ghost before = names_view(out@);
            out.push(w);
            proof {
                assert(names_view(out@) =~= before.push(s.subrange(ii, k - a)));
                let rest = tokens_from(s, k - a);
                assert(tokens_from(s, ii) =~= seq![s.subrange(ii, k - a)] + rest);
                assert(names_view(out@) + rest =~= before + (seq![s.subrange(ii, k - a)] + rest));
            }
            i = k;
        }
    }
    proof {
        assert(names_view(out@) + tokens_from(s, i - a) =~= names_view(out@));
    }
    out
}

} // verus!
