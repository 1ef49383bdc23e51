//! Byte-string helpers with exact contracts: splitting, prefixes, trimming,
//! decimal rendering and lexicographic order.
use vstd::prelude::*;

verus! {

/// `s` begins with `p`.
pub open spec fn starts_with(s: Seq<u8>, p: Seq<u8>) -> bool {
    p.len() <= s.len() && s.subrange(0, p.len() as int) == p
}

/// Appends `src` to `dst`.
pub fn push_all(dst: &mut Vec<u8>, src: &[u8])
    ensures
        final(dst)@ == old(dst)@ + src@,
{
    let mut i: usize = 0;
    while i < src.len()
        invariant
            0 <= i <= src@.len(),
            dst@ == old(dst)@ + src@.subrange(0, i as int),
        decreases src@.len() - i,
    {
        dst.push(src[i]);
        i = i + 1;
        assert(src@.subrange(0, i as int) == src@.subrange(0, i - 1) + seq![src@[i - 1]]);
    }
    assert(src@.subrange(0, src@.len() as int) == src@);
}

/// Byte-wise equality of two slices.
pub fn bytes_eq(a: &[u8], b: &[u8]) -> (r: bool)
    ensures
        r == (a@ == b@),
{
    if a.len() != b.len() {
        return false;
    }
    let mut i: usize = 0;
    while i < a.len()
        invariant
            a@.len() == b@.len(),
            0 <= i <= a@.len(),
            forall|j: int| 0 <= j < i ==> a@[j] == b@[j],
        decreases a@.len() - i,
    {
        if a[i] != b[i] {
            return false;
        }
        i = i + 1;
    }
    assert(a@ == b@);
    true
}

/// Whether `s` begins with `p`.
pub fn has_prefix(s: &[u8], p: &[u8]) -> (r: bool)
    ensures
        r == starts_with(s@, p@),
{
    if p.len() > s.len() {
        return false;
    }
    let mut i: usize = 0;
    while i < p.len()
        invariant
            p@.len() <= s@.len(),
            0 <= i <= p@.len(),
            forall|j: int| 0 <= j < i ==> s@[j] == p@[j],
        decreases p@.len() - i,
    {
        if s[i] != p[i] {
            assert(s@.subrange(0, p@.len() as int)[i as int] != p@[i as int]);
            return false;
        }
        i = i + 1;
    }
    assert(s@.subrange(0, p@.len() as int) == p@);
    true
}

/// The bytes of `s` from `start` on.
pub fn tail(s: &[u8], start: usize) -> (r: Vec<u8>)
    requires
        start <= s@.len(),
    ensures
        r@ == s@.subrange(start as int, s@.len() as int),
{
    slice_of(s, start, s.len())
}

/// The bytes of `s` in `[start, end)`.
pub fn slice_of(s: &[u8], start: usize, end: usize) -> (r: Vec<u8>)
    requires
        start <= end <= s@.len(),
    ensures
        r@ == s@.subrange(start as int, end as int),
{
    let mut r: Vec<u8> = Vec::new();
    let mut i: usize = start;
    while i < end
        invariant
            start <= i <= end <= s@.len(),
            r@ == s@.subrange(start as int, i as int),
        decreases end - i,
    {
        r.push(s[i]);
        i = i + 1;
        assert(s@.subrange(start as int, i as int) == s@.subrange(start as int, i - 1) + seq![s@[i - 1]]);
    }
    r
}

/// The parts of `s` between occurrences of `d`, scanned from index `i` with the
/// current part `cur` already collected; an input without `d` is one part.
pub open spec fn split_from(s: Seq<u8>, d: u8, i: int, cur: Seq<u8>) -> Seq<Seq<u8>>
    decreases s.len() - i,
{
    if i >= s.len() || i < 0 {
        seq![cur]
    } else if s[i] == d {
        seq![cur] + split_from(s, d, i + 1, Seq::empty())
    } else {
        split_from(s, d, i + 1, cur.push(s[i]))
    }
}

/// The parts of `s` between occurrences of the byte `d` (the empty input has one
/// empty part).
pub open spec fn split_on(s: Seq<u8>, d: u8) -> Seq<Seq<u8>> {
    split_from(s, d, 0, Seq::empty())
}

/// Splits `s` at every occurrence of the byte `d`.
pub fn split_bytes(s: &[u8], d: u8) -> (r: Vec<Vec<u8>>)
    ensures
        r@.map_values(|p: Vec<u8>| p@) == split_on(s@, d),
{
    let mut parts: Vec<Vec<u8>> = Vec::new();
    let mut cur: Vec<u8> = Vec::new();
    let mut i: usize = 0;
    while i < s.len()
        invariant
            0 <= i <= s@.len(),
            parts@.map_values(|p: Vec<u8>| p@) + split_from(s@, d, i as int, cur@) == split_on(s@, d),
        decreases s@.len() - i,
    {
        if s[i] == d {
            let ghost before = parts@.map_values(|p: Vec<u8>| p@);
            let ghost cv = cur@;
            parts.push(cur);
            cur = Vec::new();
            assert(parts@.map_values(|p: Vec<u8>| p@) == before.push(cv));
        } else {
            cur.push(s[i]);
        }
        i = i + 1;
    }
    let ghost before = parts@.map_values(|p: Vec<u8>| p@);
    let ghost cv = cur@;
    parts.push(cur);
    assert(parts@.map_values(|p: Vec<u8>| p@) == before.push(cv));
    parts
}

/// The parts of `s` between occurrences of the two-byte separator `, `,
/// scanned from index `i` with the current part `cur` already collected.
pub open spec fn split_list_from(s: Seq<u8>, i: int, cur: Seq<u8>) -> Seq<Seq<u8>>
    decreases s.len() - i,
{
    if i >= s.len() || i < 0 {
        seq![cur]
    } else if i + 1 < s.len() && s[i] == 0x2c && s[i + 1] == 0x20 {
        seq![cur] + split_list_from(s, i + 2, Seq::empty())
    } else {
        split_list_from(s, i + 1, cur.push(s[i]))
    }
}

/// The parts of `s` between non-overlapping occurrences of `, `, left to right.
pub open spec fn split_list(s: Seq<u8>) -> Seq<Seq<u8>> {
    split_list_from(s, 0, Seq::empty())
}

/// Splits `s` at every `, `.
pub fn split_comma_space(s: &[u8]) -> (r: Vec<Vec<u8>>)
    ensures
        r@.map_values(|p: Vec<u8>| p@) == split_list(s@),
{
    let mut parts: Vec<Vec<u8>> = Vec::new();
    let mut cur: Vec<u8> = Vec::new();
    let mut i: usize = 0;
    while i < s.len()
        invariant
            0 <= i <= s@.len(),
            parts@.map_values(|p: Vec<u8>| p@) + split_list_from(s@, i as int, cur@) == split_list(s@),
        decreases s@.len() - i,
    {
        if i + 1 < s.len() && s[i] == 0x2c && s[i + 1] == 0x20 {
            let ghost before = parts@.map_values(|p: Vec<u8>| p@);
            let ghost cv = cur@;
            parts.push(cur);
            cur = Vec::new();
            assert(parts@.map_values(|p: Vec<u8>| p@) == before.push(cv));
            i = i + 2;
        } else {
            cur.push(s[i]);
            i = i + 1;
        }
    }
    let ghost before = parts@.map_values(|p: Vec<u8>| p@);
    let ghost cv = cur@;
    parts.push(cur);
    assert(parts@.map_values(|p: Vec<u8>| p@) == before.push(cv));
    parts
}

/// The first index at or after `i` where `s` holds `d`.
pub open spec fn index_from(s: Seq<u8>, d: u8, i: int) -> Option<int>
    decreases s.len() - i,
{
    if i >= s.len() || i < 0 {
        None
    } else if s[i] == d {
        Some(i)
    } else {
        index_from(s, d, i + 1)
    }
}

/// `s` cut at its first `d`, the `d` itself dropped; `None` where `s` has no `d`.
pub open spec fn split_once(s: Seq<u8>, d: u8) -> Option<(Seq<u8>, Seq<u8>)> {
    match index_from(s, d, 0) {
        Some(k) => Some((s.subrange(0, k), s.subrange(k + 1, s.len() as int))),
        None => None,
    }
}

/// Cuts `s` at its first occurrence of `d`.
pub fn split_once_bytes(s: &[u8], d: u8) -> (r: Option<(Vec<u8>, Vec<u8>)>)
    ensures
        match r {
            Some((a, b)) => split_once(s@, d) == Some((a@, b@)),
            None => split_once(s@, d) is None,
        },
{
    let mut i: usize = 0;
    while i < s.len()
        invariant
            0 <= i <= s@.len(),
            index_from(s@, d, 0) == index_from(s@, d, i as int),
        decreases s@.len() - i,
    {
        if s[i] == d {
            let a = slice_of(s, 0, i);
            let b = tail(s, i + 1);
            return Some((a, b));
        }
        i = i + 1;
    }
    None
}

/// `b` with ASCII capitals made small.
pub open spec fn lower_byte(b: u8) -> u8 {
    if 0x41 <= b <= 0x5a { (b + 0x20) as u8 } else { b }
}

/// `s` with ASCII capitals made small.
pub open spec fn ascii_lower(s: Seq<u8>) -> Seq<u8> {
    s.map_values(|b: u8| lower_byte(b))
}

/// Makes ASCII capitals of `s` small.
pub fn to_ascii_lower(s: &[u8]) -> (r: Vec<u8>)
    ensures
        r@ == ascii_lower(s@),
{
    let mut r: Vec<u8> = Vec::new();
    let mut i: usize = 0;
    while i < s.len()
        invariant
            0 <= i <= s@.len(),
            r@ == ascii_lower(s@.subrange(0, i as int)),
        decreases s@.len() - i,
    {
        let b = s[i];
        let l = if 0x41 <= b && b <= 0x5a { b + 0x20 } else { b };
        r.push(l);
        i = i + 1;
        assert(ascii_lower(s@.subrange(0, i as int)) == ascii_lower(s@.subrange(0, i - 1)).push(l));
    }
    assert(s@.subrange(0, s@.len() as int) == s@);
    r
}

/// A space or a horizontal tab.
pub open spec fn is_blank(b: u8) -> bool {
    b == 0x20 || b == 0x09
}

/// `s` without its leading blanks.
pub open spec fn trim_start(s: Seq<u8>) -> Seq<u8>
    decreases s.len(),
{
    if s.len() > 0 && is_blank(s[0]) {
        trim_start(s.drop_first())
    } else {
        s
    }
}

/// `s` without its trailing blanks.
pub open spec fn trim_end(s: Seq<u8>) -> Seq<u8>
    decreases s.len(),
{
    if s.len() > 0 && is_blank(s.last()) {
        trim_end(s.drop_last())
    } else {
        s
    }
}

/// `s` without leading and trailing blanks.
pub open spec fn trim(s: Seq<u8>) -> Seq<u8> {
    trim_end(trim_start(s))
}

/// Removes leading and trailing spaces and tabs.
pub fn trim_blanks(s: &[u8]) -> (r: Vec<u8>)
    ensures
        r@ == trim(s@),
{
    let mut start: usize = 0;
    assert(s@.subrange(0, s@.len() as int) == s@);
    while start < s.len() && (s[start] == 0x20 || s[start] == 0x09)
        invariant
            0 <= start <= s@.len(),
            trim_start(s@) == trim_start(s@.subrange(start as int, s@.len() as int)),
        decreases s@.len() - start,
    {
        assert(s@.subrange(start as int, s@.len() as int).drop_first()
            == s@.subrange(start + 1, s@.len() as int));
        start = start + 1;
    }
    let ghost w = s@.subrange(start as int, s@.len() as int);
    assert(trim_start(s@) == w);
    let mut end: usize = s.len();
    while end > start && (s[end - 1] == 0x20 || s[end - 1] == 0x09)
        invariant
            start <= end <= s@.len(),
            w == s@.subrange(start as int, s@.len() as int),
            trim_end(w) == trim_end(s@.subrange(start as int, end as int)),
        decreases end - start,
    {
        assert(s@.subrange(start as int, end as int).drop_last()
            == s@.subrange(start as int, end - 1));
        end = end - 1;
    }
    slice_of(s, start, end)
}

/// The decimal digits of `n`, most significant first, with no leading zero.
pub open spec fn decimal(n: nat) -> Seq<u8>
    decreases n,
{
    if n < 10 {
        seq![(0x30 + n) as u8]
    } else {
        decimal(n / 10).push((0x30 + n % 10) as u8)
    }
}

/// Renders `n` in decimal.
pub fn decimal_bytes(n: u64) -> (r: Vec<u8>)
    ensures
        r@ == decimal(n as nat),
    decreases n,
{
    if n < 10 {
        let mut r: Vec<u8> = Vec::new();
        r.push((0x30 + n) as u8);
        r
    } else {
        let mut r = decimal_bytes(n / 10);
        r.push((0x30 + n % 10) as u8);
        r
    }
}

/// `a` comes no later than `b` in byte-wise lexicographic order.
pub open spec fn lex_le(a: Seq<u8>, b: Seq<u8>) -> bool
    decreases a.len(),
{
    if a.len() == 0 {
        true
    } else if b.len() == 0 {
        false
    } else if a[0] != b[0] {
        a[0] < b[0]
    } else {
        lex_le(a.drop_first(), b.drop_first())
    }
}

/// Compares `a` and `b` in byte-wise lexicographic order.
pub fn lex_le_bytes(a: &[u8], b: &[u8]) -> (r: bool)
    ensures
        r == lex_le(a@, b@),
{
    let mut i: usize = 0;
    assert(a@.subrange(0, a@.len() as int) == a@);
    assert(b@.subrange(0, b@.len() as int) == b@);
    while i < a.len() && i < b.len() && a[i] == b[i]
        invariant
            0 <= i <= a@.len(),
            i <= b@.len(),
            lex_le(a@, b@) == lex_le(
                a@.subrange(i as int, a@.len() as int),
                b@.subrange(i as int, b@.len() as int),
            ),
        decreases a@.len() - i,
    {
        assert(a@.subrange(i as int, a@.len() as int).drop_first()
            == a@.subrange(i + 1, a@.len() as int));
        assert(b@.subrange(i as int, b@.len() as int).drop_first()
            == b@.subrange(i + 1, b@.len() as int));
        i = i + 1;
    }
    if i == a.len() {
        true
    } else if i == b.len() {
        false
    } else {
        a[i] < b[i]
    }
}

/// Of any two byte strings, one comes no later than the other.
pub proof fn lemma_lex_total(a: Seq<u8>, b: Seq<u8>)
    ensures
        lex_le(a, b) || lex_le(b, a),
    decreases a.len(),
{
    if a.len() > 0 && b.len() > 0 && a[0] == b[0] {
        lemma_lex_total(a.drop_first(), b.drop_first());
    }
}

/// Lexicographic order is transitive.
pub proof fn lemma_lex_trans(a: Seq<u8>, b: Seq<u8>, c: Seq<u8>)
    requires
        lex_le(a, b),
        lex_le(b, c),
    ensures
        lex_le(a, c),
    decreases a.len(),
{
    if a.len() > 0 && b.len() > 0 && c.len() > 0 && a[0] == b[0] && b[0] == c[0] {
        lemma_lex_trans(a.drop_first(), b.drop_first(), c.drop_first());
    }
}

/// Splitting at `, ` where no comma follows index `i` yields one last part.
pub proof fn lemma_split_list_last(s: Seq<u8>, i: int, cur: Seq<u8>)
    requires
        0 <= i <= s.len(),
        forall|k: int| i <= k < s.len() ==> #[trigger] s[k] != 0x2c,
    ensures
        split_list_from(s, i, cur) == seq![cur + s.subrange(i, s.len() as int)],
    decreases s.len() - i,
{
    if i < s.len() {
        lemma_split_list_last(s, i + 1, cur.push(s[i]));
        assert(cur.push(s[i]) + s.subrange(i + 1, s.len() as int) == cur + s.subrange(i, s.len() as int));
    } else {
        assert(cur + s.subrange(i, s.len() as int) == cur);
    }
}

/// Splitting at `, ` up to the first comma, which starts a separator, yields
/// the bytes before it as one part.
pub proof fn lemma_split_list_cut(s: Seq<u8>, i: int, k: int, cur: Seq<u8>)
    requires
        0 <= i <= k,
        k + 1 < s.len(),
        s[k] == 0x2c && s[k + 1] == 0x20,
        forall|j: int| i <= j < k ==> #[trigger] s[j] != 0x2c,
    ensures
        split_list_from(s, i, cur) == seq![cur + s.subrange(i, k)] + split_list_from(s, k + 2, Seq::empty()),
    decreases k - i,
{
    if i < k {
        lemma_split_list_cut(s, i + 1, k, cur.push(s[i]));
        assert(cur.push(s[i]) + s.subrange(i + 1, k) == cur + s.subrange(i, k));
    } else {
        assert(cur + s.subrange(i, k) == cur);
    }
}

/// Splitting at `d` where no `d` follows index `i` yields one last part.
pub proof fn lemma_split_last(s: Seq<u8>, d: u8, i: int, cur: Seq<u8>)
    requires
        0 <= i <= s.len(),
        forall|k: int| i <= k < s.len() ==> #[trigger] s[k] != d,
    ensures
        split_from(s, d, i, cur) == seq![cur + s.subrange(i, s.len() as int)],
    decreases s.len() - i,
{
    if i < s.len() {
        lemma_split_last(s, d, i + 1, cur.push(s[i]));
        assert(cur.push(s[i]) + s.subrange(i + 1, s.len() as int) == cur + s.subrange(i, s.len() as int));
    } else {
        assert(cur + s.subrange(i, s.len() as int) == cur);
    }
}

/// Splitting at `d` up to its first occurrence yields the bytes before it as
/// one part.
pub proof fn lemma_split_cut(s: Seq<u8>, d: u8, i: int, k: int, cur: Seq<u8>)
    requires
        0 <= i <= k < s.len(),
        s[k] == d,
        forall|j: int| i <= j < k ==> #[trigger] s[j] != d,
    ensures
        split_from(s, d, i, cur) == seq![cur + s.subrange(i, k)] + split_from(s, d, k + 1, Seq::empty()),
    decreases k - i,
{
    if i < k {
        lemma_split_cut(s, d, i + 1, k, cur.push(s[i]));
        assert(cur.push(s[i]) + s.subrange(i + 1, k) == cur + s.subrange(i, k));
    } else {
        assert(cur + s.subrange(i, k) == cur);
    }
}

} // verus!
