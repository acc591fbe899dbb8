use vstd::prelude::*;
use vstd::string::*;

verus! {

/// What `str::to_lowercase` makes of a character sequence (full Unicode case mapping).
pub uninterp spec fn lowercase(s: Seq<char>) -> Seq<char>;

/// A text made of ASCII characters only (the empty text among them).
pub open spec fn ascii_text(s: Seq<char>) -> bool {
    forall|i: int| 0 <= i < s.len() ==> (#[trigger] s[i]) <= '\x7f'
}

/// `char::to_ascii_lowercase`: `A`-`Z` become `a`-`z`, other characters stay.
pub open spec fn ascii_lower_char(c: char) -> char {
    if 'A' <= c && c <= 'Z' {
        ((c as int) + 32) as char
    } else {
        c
    }
}

/// Each character lowercased as ASCII.
pub open spec fn ascii_lower(s: Seq<char>) -> Seq<char> {
    s.map_values(|c: char| ascii_lower_char(c))
}

/// `str::to_lowercase`: the result is the Unicode lowercase form of `s`,
/// named by `lowercase`. On ASCII text it is the ASCII lowercasing: letters
/// `A`-`Z` become `a`-`z` and every other character stays (so the empty
/// text stays empty), as the Unicode case tables give for ASCII.
#[verifier::external_body]
pub(crate) fn to_lowercase(s: &str) -> (r: String)
    ensures
        r@ == lowercase(s@),
        ascii_text(s@) ==> r@ == ascii_lower(s@),
{
    s.to_lowercase()
}

/// `String::push`: appends one character.
#[verifier::external_body]
pub(crate) fn push_char(s: &mut String, c: char)
    ensures
        final(s)@ == old(s)@.push(c),
{
    s.push(c);
}

/// The characters of `s`, in order.
pub fn chars_of(s: &str) -> (v: Vec<char>)
    ensures
        v@ == s@,
{
    let n = s.unicode_len();
    let mut v: Vec<char> = Vec::new();
    for i in 0..n
        invariant
            n == s@.len(),
            v@ == s@.subrange(0, i as int),
    {
        v.push(s.get_char(i));
        assert(v@ =~= s@.subrange(0, i + 1));
    }
    assert(v@ =~= s@);
    v
}

/// A string holding exactly the given characters.
pub fn string_of(v: &Vec<char>) -> (s: String)
    ensures
        s@ == v@,
{
    let mut s = String::new();
    for i in 0..v.len()
        invariant
            s@ == v@.subrange(0, i as int),
    {
        push_char(&mut s, v[i]);
        assert(s@ =~= v@.subrange(0, i + 1));
    }
    assert(s@ =~= v@);
    s
}

/// Whether two strings hold the same characters.
pub fn str_eq(a: &str, b: &str) -> (r: bool)
    ensures
        r == (a@ == b@),
{
    let n = a.unicode_len();
    let m = b.unicode_len();
    if n != m {
        return false;
    }
    for i in 0..n
        invariant
            n == a@.len(),
            m == b@.len(),
            n == m,
            forall|j: int| 0 <= j < i ==> a@[j] == b@[j],
    {
        if a.get_char(i) != b.get_char(i) {
            return false;
        }
    }
    assert(a@ =~= b@);
    true
}

/// Whether `p` is a prefix of `s`.
pub fn starts_with(s: &str, p: &str) -> (r: bool)
    ensures
        r == p@.is_prefix_of(s@),
{
    let n = s.unicode_len();
    let m = p.unicode_len();
    if m > n {
        return false;
    }
    for i in 0..m
        invariant
            n == s@.len(),
            m == p@.len(),
            m <= n,
            forall|j: int| 0 <= j < i ==> p@[j] == s@[j],
    {
        if p.get_char(i) != s.get_char(i) {
            return false;
        }
    }
    true
}

/// `needle` occurs in `hay` as a contiguous run of characters.
pub open spec fn occurs_in(needle: Seq<char>, hay: Seq<char>) -> bool {
    exists|i: int|
        0 <= i && i + needle.len() <= hay.len() && #[trigger] hay.subrange(i, i + needle.len())
            == needle
}

/// Whether `needle` occurs in `hay`.
pub fn contains_chars(hay: &Vec<char>, needle: &Vec<char>) -> (r: bool)
    ensures
        r == occurs_in(needle@, hay@),
{
    let n = hay.len();
    let m = needle.len();
    if m > n {
        assert forall|i: int|
            0 <= i && i + needle@.len() <= hay@.len() implies #[trigger] hay@.subrange(
            i,
            i + needle@.len(),
        ) != needle@ by {}
        return false;
    }
    let mut i: usize = 0;
    while i <= n - m
        invariant
            n == hay@.len(),
            m == needle@.len(),
            m <= n,
            i <= n - m + 1,
            forall|k: int| 0 <= k < i ==> #[trigger] hay@.subrange(k, k + m) != needle@,
        decreases n - m + 1 - i,
    {
        let mut j: usize = 0;
        let mut same = true;
        while j < m
            invariant
                n == hay@.len(),
                m == needle@.len(),
                i + m <= n,
                j <= m,
                same == (forall|t: int| 0 <= t < j ==> hay@[i + t] == needle@[t]),
            decreases m - j,
        {
            if hay[i + j] != needle[j] {
                same = false;
            }
            j = j + 1;
        }
        if same {
            assert(hay@.subrange(i as int, i + m) =~= needle@);
            return true;
        }
        assert(hay@.subrange(i as int, i + m)[0] == hay@[i as int]);
        assert(hay@.subrange(i as int, i + m) != needle@) by {
            let t = choose|t: int| 0 <= t < m && hay@[i + t] != needle@[t];
            assert(hay@.subrange(i as int, i + m)[t] == hay@[i + t]);
        }
        i = i + 1;
    }
    false
}

/// Comparing from position `i` on, `a` sorts strictly before `b`
/// (character by character, by code point; a proper prefix first).
pub open spec fn lt_from(a: Seq<char>, b: Seq<char>, i: int) -> bool
    decreases a.len() - i,
{
    if i < 0 || i >= a.len() {
        i == a.len() && i < b.len()
    } else if i >= b.len() {
        false
    } else if a[i] != b[i] {
        (a[i] as int) < (b[i] as int)
    } else {
        lt_from(a, b, i + 1)
    }
}

/// `a` sorts strictly before `b` in the order of `str`'s `Ord`.
pub open spec fn str_lt_spec(a: Seq<char>, b: Seq<char>) -> bool {
    lt_from(a, b, 0)
}

proof fn lemma_lt_irrefl(a: Seq<char>, i: int)
    requires
        0 <= i <= a.len(),
    ensures
        !lt_from(a, a, i),
    decreases a.len() - i,
{
    if i < a.len() {
        lemma_lt_irrefl(a, i + 1);
    }
}

proof fn lemma_lt_asym(a: Seq<char>, b: Seq<char>, i: int)
    requires
        0 <= i <= a.len(),
        i <= b.len(),
    ensures
        lt_from(a, b, i) ==> !lt_from(b, a, i),
    decreases a.len() - i,
{
    if i < a.len() && i < b.len() && a[i] == b[i] {
        lemma_lt_asym(a, b, i + 1);
    }
}

proof fn lemma_lt_trans(a: Seq<char>, b: Seq<char>, c: Seq<char>, i: int)
    requires
        0 <= i <= a.len(),
        i <= b.len(),
        i <= c.len(),
    ensures
        lt_from(a, b, i) && lt_from(b, c, i) ==> lt_from(a, c, i),
    decreases a.len() - i,
{
    if lt_from(a, b, i) && lt_from(b, c, i) {
        if i == a.len() {
            assert(i < b.len());
            assert(i < c.len());
        } else {
            assert(i < b.len());
            assert(i < c.len());
            if a[i] == b[i] && b[i] == c[i] {
                lemma_lt_trans(a, b, c, i + 1);
            }
        }
    }
}

proof fn lemma_lt_total(a: Seq<char>, b: Seq<char>, i: int)
    requires
        0 <= i <= a.len(),
        i <= b.len(),
        forall|k: int| 0 <= k < i ==> a[k] == b[k],
        a != b,
    ensures
        lt_from(a, b, i) || lt_from(b, a, i),
    decreases a.len() - i,
{
    if i == a.len() && i == b.len() {
        assert(a =~= b);
    } else if i < a.len() && i < b.len() {
        if a[i] == b[i] {
            lemma_lt_total(a, b, i + 1);
        } else {
            assert((a[i] as int) != (b[i] as int));
        }
    }
}

/// `str_lt_spec` is a strict total order.
pub proof fn lemma_str_lt_order(a: Seq<char>, b: Seq<char>, c: Seq<char>)
    ensures
        !str_lt_spec(a, a),
        str_lt_spec(a, b) ==> !str_lt_spec(b, a),
        str_lt_spec(a, b) && str_lt_spec(b, c) ==> str_lt_spec(a, c),
        a != b ==> str_lt_spec(a, b) || str_lt_spec(b, a),
{
    lemma_lt_irrefl(a, 0);
    lemma_lt_asym(a, b, 0);
    lemma_lt_trans(a, b, c, 0);
    if a != b {
        lemma_lt_total(a, b, 0);
    }
}

/// Whether `a` sorts strictly before `b`.
pub fn str_lt(a: &str, b: &str) -> (r: bool)
    ensures
        r == str_lt_spec(a@, b@),
{
    let n = a.unicode_len();
    let m = b.unicode_len();
    let mut i: usize = 0;
    while i < n && i < m
        invariant
            n == a@.len(),
            m == b@.len(),
            i <= n,
            i <= m,
            str_lt_spec(a@, b@) == lt_from(a@, b@, i as int),
        decreases n - i,
    {
        let x = a.get_char(i);
        let y = b.get_char(i);
        if x != y {
            return x < y;
        }
        i = i + 1;
    }
    i == n && i < m
}

/// The positions of `v` in the order that sorts its strings, equal
/// strings keeping their order.
pub fn string_order(v: &Vec<String>) -> (order: Vec<usize>)
    ensures
        order@.len() == v@.len(),
        forall|i: int| 0 <= i < order@.len() ==> #[trigger] order@[i] < v@.len(),
        forall|i: int, j: int| 0 <= i < j < order@.len() ==> order@[i] != order@[j],
        forall|i: int, j: int| 0 <= i < j < order@.len() ==> !str_lt_spec(v@[order@[j] as int]@, v@[order@[i] as int]@),
{
    let n = v.len();
    let mut order: Vec<usize> = Vec::new();
    for i in 0..n
        invariant
            n == v@.len(),
            order@.len() == i,
            forall|k: int| 0 <= k < order@.len() ==> #[trigger] order@[k] < i,
            forall|a: int, b: int| 0 <= a < b < order@.len() ==> order@[a] != order@[b],
            forall|a: int, b: int|
                0 <= a < b < order@.len() ==> !str_lt_spec(v@[order@[b] as int]@, v@[order@[a] as int]@),
    {
        let mut p: usize = 0;
        while p < order.len() && !str_lt(v[i].as_str(), v[order[p]].as_str())
            invariant
                n == v@.len(),
                i < n,
                order@.len() == i,
                p <= order@.len(),
                forall|k: int| 0 <= k < order@.len() ==> #[trigger] order@[k] < i,
                forall|k: int| 0 <= k < p ==> !str_lt_spec(v@[i as int]@, v@[#[trigger] order@[k] as int]@),
            decreases order@.len() - p,
        {
            p = p + 1;
        }
        let ghost old_order = order@;
        order.insert(p, i);
        proof {
            assert forall|k: int| p < k < order@.len() implies str_lt_spec(v@[i as int]@, v@[#[trigger] order@[k] as int]@) by {
                let x = v@[i as int]@;
                let y = v@[old_order[p as int] as int]@;
                let z = v@[old_order[k - 1] as int]@;
                assert(order@[k] == old_order[k - 1]);
                assert(str_lt_spec(x, y));
                if k - 1 > p {
                    assert(!str_lt_spec(z, y));
                    lemma_str_lt_order(y, z, x);
                    lemma_str_lt_order(x, y, z);
                }
            }
            assert forall|a: int, b: int| 0 <= a < b < order@.len() implies order@[a] != order@[b] by {
                if a < p && b < p {
                    assert(order@[a] == old_order[a] && order@[b] == old_order[b]);
                } else if a < p && b == p {
                    assert(order@[a] == old_order[a]);
                } else if a < p {
                    assert(order@[a] == old_order[a] && order@[b] == old_order[b - 1]);
                } else if a == p {
                    assert(order@[b] == old_order[b - 1]);
                } else {
                    assert(order@[a] == old_order[a - 1] && order@[b] == old_order[b - 1]);
                }
            }
            assert forall|a: int, b: int| 0 <= a < b < order@.len() implies !str_lt_spec(v@[order@[b] as int]@, v@[order@[a] as int]@) by {
                if a < p && b < p {
                    assert(order@[a] == old_order[a] && order@[b] == old_order[b]);
                } else if a < p && b == p {
                    assert(order@[a] == old_order[a]);
                } else if a < p {
                    assert(order@[a] == old_order[a] && order@[b] == old_order[b - 1]);
                    let x = v@[i as int]@;
                    let y = v@[old_order[a] as int]@;
                    let z = v@[old_order[b - 1] as int]@;
                    assert(!str_lt_spec(x, y));
                    assert(str_lt_spec(x, z));
                    lemma_str_lt_order(z, y, x);
                    lemma_str_lt_order(x, z, y);
                    lemma_str_lt_order(z, x, y);
                    if x != y {
                        lemma_str_lt_order(x, y, z);
                    }
                } else if a == p {
                    let x = v@[i as int]@;
                    let z = v@[order@[b] as int]@;
                    lemma_str_lt_order(x, z, x);
                } else {
                    assert(order@[a] == old_order[a - 1] && order@[b] == old_order[b - 1]);
                }
            }
        }
    }
    order
}

/// The character sequences of a list of strings.
pub open spec fn string_views(v: Seq<String>) -> Seq<Seq<char>> {
    v.map_values(|s: String| s@)
}

/// The strings of `v` sorted into `str` order.
pub fn sort_strings(v: &Vec<String>) -> (r: Vec<String>)
    ensures
        r@.len() == v@.len(),
        forall|i: int, j: int| 0 <= i < j < r@.len() ==> !str_lt_spec(r@[j]@, r@[i]@),
        forall|x: Seq<char>| #[trigger] string_views(r@).contains(x) <==> string_views(v@).contains(x),
{
    let order = string_order(v);
    let mut r: Vec<String> = Vec::new();
    for k in 0..order.len()
        invariant
            order@.len() == v@.len(),
            forall|i: int| 0 <= i < order@.len() ==> #[trigger] order@[i] < v@.len(),
            r@.len() == k,
            forall|j: int| 0 <= j < k ==> #[trigger] r@[j]@ == v@[order@[j] as int]@,
    {
        r.push(v[order[k]].clone());
    }
    proof {
        crate::order::lemma_perm_covers(order@, v@.len() as int);
        let rv = string_views(r@);
        let vv = string_views(v@);
        assert forall|x: Seq<char>| #[trigger] rv.contains(x) <==> vv.contains(x) by {
            if rv.contains(x) {
                let k = choose|k: int| 0 <= k < rv.len() && rv[k] == x;
                assert(r@[k]@ == v@[order@[k] as int]@);
                assert(vv[order@[k] as int] == x);
            }
            if vv.contains(x) {
                let p = choose|p: int| 0 <= p < vv.len() && vv[p] == x;
                assert(order@.contains(p as usize));
                let k = choose|k: int| 0 <= k < order@.len() && order@[k] == p as usize;
                assert(rv[k] == x);
            }
        }
    }
    r
}

/// The strings of `s`, with `sep` between each two.
pub open spec fn joined(s: Seq<Seq<char>>, sep: Seq<char>) -> Seq<char>
    decreases s.len(),
{
    if s.len() == 0 {
        Seq::<char>::empty()
    } else if s.len() == 1 {
        s[0]
    } else {
        joined(s.drop_last(), sep) + sep + s.last()
    }
}

/// Appends every character of `t` to `s`.
pub fn push_all(s: &mut String, t: &str)
    ensures
        final(s)@ == old(s)@ + t@,
{
    let n = t.unicode_len();
    let ghost s0 = s@;
    for i in 0..n
        invariant
            n == t@.len(),
            s@ == s0 + t@.subrange(0, i as int),
    {
        push_char(s, t.get_char(i));
        assert(s@ =~= s0 + t@.subrange(0, i + 1));
    }
    assert(t@.subrange(0, n as int) =~= t@);
}

/// The strings of `v` joined with `sep` between them.
pub fn join_strings(v: &Vec<String>, sep: &str) -> (r: String)
    ensures
        r@ == joined(string_views(v@), sep@),
{
    let ghost sv = string_views(v@);
    let mut r = String::new();
    for i in 0..v.len()
        invariant
            sv == string_views(v@),
            r@ == joined(sv.take(i as int), sep@),
    {
        if i > 0 {
            push_all(&mut r, sep);
        }
        push_all(&mut r, v[i].as_str());
        proof {
            let t = sv.take(i + 1);
            assert(t.drop_last() =~= sv.take(i as int));
            if i == 0 {
                assert(r@ =~= t[0]);
            }
        }
    }
    assert(sv.take(v@.len() as int) =~= sv);
    r
}

/// The decimal digits of `n`.
pub open spec fn decimal_spec(n: nat) -> Seq<char>
    decreases n,
{
    if n < 10 {
        seq![digit_char(n)]
    } else {
        decimal_spec(n / 10).push(digit_char(n % 10))
    }
}

/// The character of a decimal digit.
pub open spec fn digit_char(d: nat) -> char {
    if d == 0 {
        '0'
    } else if d == 1 {
        '1'
    } else if d == 2 {
        '2'
    } else if d == 3 {
        '3'
    } else if d == 4 {
        '4'
    } else if d == 5 {
        '5'
    } else if d == 6 {
        '6'
    } else if d == 7 {
        '7'
    } else if d == 8 {
        '8'
    } else {
        '9'
    }
}

fn digit_of(d: u64) -> (c: char)
    requires
        d < 10,
    ensures
        c == digit_char(d as nat),
{
    if d == 0 {
        '0'
    } else if d == 1 {
        '1'
    } else if d == 2 {
        '2'
    } else if d == 3 {
        '3'
    } else if d == 4 {
        '4'
    } else if d == 5 {
        '5'
    } else if d == 6 {
        '6'
    } else if d == 7 {
        '7'
    } else if d == 8 {
        '8'
    } else {
        '9'
    }
}

/// `n` written in decimal.
pub fn decimal(n: u64) -> (s: String)
    ensures
        s@ == decimal_spec(n as nat),
    decreases n,
{
    if n < 10 {
        let mut s = String::new();
        push_char(&mut s, digit_of(n));
        assert(s@ =~= seq![digit_char(n as nat)]);
        s
    } else {
        let mut s = decimal(n / 10);
        push_char(&mut s, digit_of(n % 10));
        s
    }
}

/// `n` written in decimal, with a leading `-` when negative.
pub open spec fn signed_decimal_spec(n: int) -> Seq<char> {
    if n < 0 {
        seq!['-'] + decimal_spec((-n) as nat)
    } else {
        decimal_spec(n as nat)
    }
}

/// `n` written in decimal, with a leading `-` when negative.
pub fn signed_decimal(n: i64) -> (s: String)
    ensures
        s@ == signed_decimal_spec(n as int),
{
    if n < 0 {
        let m: u64 = if n == i64::MIN {
            9223372036854775808u64
        } else {
            (-n) as u64
        };
        let d = decimal(m);
        let mut s = String::new();
        push_char(&mut s, '-');
        push_all(&mut s, d.as_str());
        assert(s@ =~= seq!['-'] + decimal_spec((-n) as nat));
        s
    } else {
        decimal(n as u64)
    }
}

} // verus!
