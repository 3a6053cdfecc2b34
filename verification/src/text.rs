//! Character-level string utilities: whitespace trimming, substring
//! search, lexicographic order and case folding. All contracts are stated
//! over `Seq<char>` views of `&str` and `String`.

use vstd::prelude::*;

verus! {

/// The Unicode `White_Space` code points, the set that `char::is_whitespace`
/// recognizes.
pub open spec fn is_space(c: char) -> bool {
    let u = c as u32;
    u == 0x20 || (0x09 <= u && u <= 0x0d) || u == 0x85 || u == 0xa0 || u == 0x1680 || (0x2000
        <= u && u <= 0x200a) || u == 0x2028 || u == 0x2029 || u == 0x202f || u == 0x205f || u
        == 0x3000
}

/// Decide whether `c` is whitespace.
pub fn is_space_char(c: char) -> (b: bool)
    ensures
        b == is_space(c),
{
    let u = c as u32;
    u == 0x20 || (0x09 <= u && u <= 0x0d) || u == 0x85 || u == 0xa0 || u == 0x1680 || (0x2000
        <= u && u <= 0x200a) || u == 0x2028 || u == 0x2029 || u == 0x202f || u == 0x205f || u
        == 0x3000
}

/// The characters of `s` as a vector, so that string contents can be
/// inspected one character at a time.
pub fn to_char_vec(s: &str) -> (v: Vec<char>)
    ensures
        v@ == s@,
{
    let n = s.unicode_len();
    let mut v: Vec<char> = Vec::new();
    let mut i: usize = 0;
    while i < n
        invariant
            n == s@.len(),
            i <= n,
            v@ == s@.subrange(0, i as int),
        decreases n - i,
    {
        v.push(s.get_char(i));
        i = i + 1;
        assert(v@ =~= s@.subrange(0, i as int));
    }
    assert(v@ =~= s@);
    v
}

/// Character-for-character equality of two character vectors.
pub fn chars_eq(a: &Vec<char>, b: &Vec<char>) -> (r: bool)
    ensures
        r == (a@ == b@),
{
    if a.len() != b.len() {
        return false;
    }
    let mut i: usize = 0;
    while i < a.len()
        invariant
            a@.len() == b@.len(),
            i <= a@.len(),
            forall|k: int| 0 <= k < i ==> a@[k] == b@[k],
        decreases a@.len() - i,
    {
        if a[i] != b[i] {
            return false;
        }
        i = i + 1;
    }
    assert(a@ =~= b@);
    true
}

/// Whether `n` occurs in `h` starting at position `i`.
pub open spec fn matches_at(h: Seq<char>, n: Seq<char>, i: int) -> bool {
    0 <= i && i + n.len() <= h.len() && h.subrange(i, i + n.len()) == n
}

/// Whether `n` occurs anywhere in `h` as a contiguous run of characters.
/// The empty sequence occurs in every sequence.
pub open spec fn contains_seq(h: Seq<char>, n: Seq<char>) -> bool {
    exists|i: int| matches_at(h, n, i)
}

fn chars_match_at(h: &Vec<char>, n: &Vec<char>, i: usize) -> (r: bool)
    requires
        i + n@.len() <= h@.len(),
    ensures
        r == matches_at(h@, n@, i as int),
{
    let hl: usize = h.len();
    let nl: usize = n.len();
    let mut j: usize = 0;
    while j < nl
        invariant
            i + n@.len() <= h@.len(),
            hl == h@.len(),
            nl == n@.len(),
            j <= n@.len(),
            forall|k: int| 0 <= k < j ==> h@[i + k] == n@[k],
        decreases n@.len() - j,
    {
        if h[i + j] != n[j] {
            assert(h@.subrange(i as int, i + n@.len())[j as int] != n@[j as int]);
            return false;
        }
        j = j + 1;
    }
    assert(h@.subrange(i as int, i + n@.len()) =~= n@);
    true
}

/// Substring search: whether `n` occurs in `h`.
pub fn contains_chars(h: &Vec<char>, n: &Vec<char>) -> (r: bool)
    ensures
        r == contains_seq(h@, n@),
{
    if n.len() > h.len() {
        assert(!contains_seq(h@, n@));
        return false;
    }
    if n.len() == 0 {
        assert(h@.subrange(0, 0) =~= n@);
        assert(matches_at(h@, n@, 0));
        return true;
    }
    let last: usize = h.len() - n.len();
    let mut i: usize = 0;
    while i <= last
        invariant
            0 < n@.len() <= h@.len(),
            last == h@.len() - n@.len(),
            i <= last + 1,
            forall|k: int| 0 <= k < i ==> !matches_at(h@, n@, k),
        decreases last + 1 - i,
    {
        if chars_match_at(h, n, i) {
            return true;
        }
        i = i + 1;
    }
    assert(forall|k: int| matches_at(h@, n@, k) ==> 0 <= k <= last);
    false
}

/// `s` with leading whitespace removed.
pub open spec fn trim_start_spec(s: Seq<char>) -> Seq<char>
    decreases s.len(),
{
    if s.len() > 0 && is_space(s[0]) {
        trim_start_spec(s.drop_first())
    } else {
        s
    }
}

/// `s` with trailing whitespace removed.
pub open spec fn trim_end_spec(s: Seq<char>) -> Seq<char>
    decreases s.len(),
{
    if s.len() > 0 && is_space(s[s.len() - 1]) {
        trim_end_spec(s.drop_last())
    } else {
        s
    }
}

/// `s` with leading and trailing whitespace removed.
pub open spec fn trim_spec(s: Seq<char>) -> Seq<char> {
    trim_end_spec(trim_start_spec(s))
}

proof fn lemma_trim_start_at(s: Seq<char>, i: int)
    requires
        0 <= i <= s.len(),
        forall|j: int| 0 <= j < i ==> is_space(s[j]),
        i == s.len() || !is_space(s[i]),
    ensures
        trim_start_spec(s) == s.skip(i),
    decreases i,
{
    if i == 0 {
        assert(s.skip(0) =~= s);
    } else {
        lemma_trim_start_at(s.drop_first(), i - 1);
        assert(s.drop_first().skip(i - 1) =~= s.skip(i));
    }
}

proof fn lemma_trim_end_at(s: Seq<char>, e: int)
    requires
        0 <= e <= s.len(),
        forall|j: int| e <= j < s.len() ==> is_space(s[j]),
        e == 0 || !is_space(s[e - 1]),
    ensures
        trim_end_spec(s) == s.take(e),
    decreases s.len() - e,
{
    if e == s.len() {
        assert(s.take(e) =~= s);
    } else {
        lemma_trim_end_at(s.drop_last(), e);
        assert(s.drop_last().take(e) =~= s.take(e));
    }
}

/// Remove leading and trailing whitespace from a string.
pub fn trim_str(s: &str) -> (r: String)
    ensures
        r@ == trim_spec(s@),
{
    let v = to_char_vec(s);
    let n = v.len();
    let mut start: usize = 0;
    while start < n && is_space_char(v[start])
        invariant
            n == s@.len(),
            v@ == s@,
            start <= n,
            forall|j: int| 0 <= j < start ==> is_space(s@[j]),
        decreases n - start,
    {
        start = start + 1;
    }
    proof {
        lemma_trim_start_at(s@, start as int);
    }
    if start == n {
        proof {
            assert(trim_start_spec(s@) =~= Seq::<char>::empty());
        }
        return String::new();
    }
    let mut end: usize = n;
    while end > start && is_space_char(v[end - 1])
        invariant
            n == s@.len(),
            v@ == s@,
            start <= end <= n,
            forall|j: int| end <= j < n ==> is_space(s@[j]),
        decreases end,
    {
        end = end - 1;
    }
    // the character at `start` is not a space, so the all-space tail
    // cannot reach it
    assert(start < end);
    proof {
        lemma_trim_end_at(s@.skip(start as int), end - start as int);
        assert(trim_spec(s@) =~= s@.subrange(start as int, end as int));
    }
    let sub = s.substring_char(start, end);
    sub.to_owned()
}

/// Character-for-character equality of two strings.
pub fn str_eq(a: &str, b: &str) -> (r: bool)
    ensures
        r == (a@ == b@),
{
    let va = to_char_vec(a);
    let vb = to_char_vec(b);
    chars_eq(&va, &vb)
}

/// An answer value carries information only when it is neither blank nor
/// the "not applicable" sentinel.
pub open spec fn is_valid_answer(v: Seq<char>) -> bool {
    trim_spec(v).len() > 0 && v != "NA"@
}

pub fn is_valid_answer_str(v: &str) -> (r: bool)
    ensures
        r == is_valid_answer(v@),
{
    let t = trim_str(v);
    if t.unicode_len() == 0 {
        false
    } else {
        !str_eq(v, "NA")
    }
}

/// The Unicode lowercase folding of a sequence of characters; written only
/// by the contract of `lowercase` below.
pub uninterp spec fn lower_of(s: Seq<char>) -> Seq<char>;

/// Relies on `str::to_lowercase`: the result is the Unicode lowercase
/// mapping of the input, a function of the input characters alone, and the
/// empty string stays empty.
#[verifier::external_body]
pub fn lowercase(s: &str) -> (r: String)
    ensures
        r@ == lower_of(s@),
        s@.len() == 0 ==> r@.len() == 0,
{
    s.to_lowercase()
}

/// The pieces of `s` between occurrences of the delimiter `d`: one piece
/// more than there are delimiters, in order, each without the delimiter.
pub open spec fn split_on(s: Seq<char>, d: char) -> Seq<Seq<char>>
    decreases s.len(),
{
    if s.len() == 0 {
        seq![Seq::<char>::empty()]
    } else if s[0] == d {
        seq![Seq::<char>::empty()] + split_on(s.drop_first(), d)
    } else {
        let rest = split_on(s.drop_first(), d);
        seq![seq![s[0]] + rest[0]] + rest.drop_first()
    }
}

proof fn lemma_split_on_len(s: Seq<char>, d: char)
    ensures
        split_on(s, d).len() >= 1,
    decreases s.len(),
{
    if s.len() > 0 {
        lemma_split_on_len(s.drop_first(), d);
    }
}

proof fn lemma_split_on_found(s: Seq<char>, d: char, m: int)
    requires
        0 <= m < s.len(),
        s[m] == d,
        forall|k: int| 0 <= k < m ==> s[k] != d,
    ensures
        split_on(s, d) == seq![s.take(m)] + split_on(s.skip(m + 1), d),
    decreases m,
{
    if m == 0 {
        assert(s.take(0) =~= Seq::<char>::empty());
        assert(s.skip(1) =~= s.drop_first());
        assert(seq![s.take(0)] + split_on(s.skip(1), d) =~= seq![Seq::<char>::empty()]
            + split_on(s.drop_first(), d));
    } else {
        let t = s.drop_first();
        lemma_split_on_found(t, d, m - 1);
        lemma_split_on_len(t.skip(m), d);
        let rest = split_on(t, d);
        assert(rest[0] == t.take(m - 1));
        assert(seq![s[0]] + t.take(m - 1) =~= s.take(m));
        assert(rest.drop_first() =~= split_on(t.skip(m), d));
        assert(t.skip(m) =~= s.skip(m + 1));
        assert(split_on(s, d) =~= seq![s.take(m)] + split_on(s.skip(m + 1), d));
    }
}

proof fn lemma_split_on_none(s: Seq<char>, d: char)
    requires
        forall|k: int| 0 <= k < s.len() ==> s[k] != d,
    ensures
        split_on(s, d) == seq![s],
    decreases s.len(),
{
    if s.len() > 0 {
        lemma_split_on_none(s.drop_first(), d);
        assert(seq![s[0]] + s.drop_first() =~= s);
        assert(split_on(s, d) =~~= seq![s]);
    } else {
        assert(s =~= Seq::<char>::empty());
        assert(split_on(s, d) =~~= seq![s]);
    }
}

/// The views of a vector of strings.
pub open spec fn str_views(v: Seq<String>) -> Seq<Seq<char>> {
    v.map_values(|x: String| x@)
}

/// Whether the character `d` occurs in `v`.
pub fn contains_char(v: &Vec<char>, d: char) -> (r: bool)
    ensures
        r == v@.contains(d),
{
    let n = v.len();
    let mut i: usize = 0;
    while i < n
        invariant
            n == v@.len(),
            i <= n,
            forall|k: int| 0 <= k < i ==> v@[k] != d,
        decreases n - i,
    {
        if v[i] == d {
            return true;
        }
        i = i + 1;
    }
    false
}

/// Split a string at every occurrence of the delimiter `d`.
pub fn split_str(s: &str, d: char) -> (r: Vec<String>)
    ensures
        str_views(r@) == split_on(s@, d),
{
    let v = to_char_vec(s);
    let n = v.len();
    let mut r: Vec<String> = Vec::new();
    proof {
        assert(s@.skip(0) =~= s@);
        assert(str_views(r@) + split_on(s@.skip(0), d) =~~= split_on(s@, d));
    }
    let mut seg_start: usize = 0;
    let mut i: usize = 0;
    while i < n
        invariant
            n == s@.len(),
            v@ == s@,
            seg_start <= i <= n,
            split_on(s@, d) == str_views(r@) + split_on(s@.skip(seg_start as int), d),
            forall|k: int| seg_start <= k < i ==> s@[k] != d,
        decreases n - i,
    {
        if v[i] == d {
            let piece = s.substring_char(seg_start, i).to_owned();
            proof {
                let suf = s@.skip(seg_start as int);
                let m = i - seg_start as int;
                lemma_split_on_found(suf, d, m);
                assert(suf.take(m) =~= s@.subrange(seg_start as int, i as int));
                assert(suf.skip(m + 1) =~= s@.skip(i + 1));
                assert(str_views(r@.push(piece)) =~= str_views(r@) + seq![piece@]);
                assert(str_views(r@) + split_on(s@.skip(seg_start as int), d) =~= (str_views(r@)
                    + seq![piece@]) + split_on(s@.skip(i + 1), d));
            }
            r.push(piece);
            seg_start = i + 1;
        }
        i = i + 1;
    }
    let piece = s.substring_char(seg_start, n).to_owned();
    proof {
        let suf = s@.skip(seg_start as int);
        lemma_split_on_none(suf, d);
        assert(suf =~= s@.subrange(seg_start as int, n as int));
        assert(str_views(r@.push(piece)) =~= str_views(r@) + seq![piece@]);
        assert(str_views(r@) + split_on(s@.skip(seg_start as int), d) =~= str_views(r@.push(piece)));
    }
    r.push(piece);
    r
}

/// Lexicographic order on character sequences, by code point; the order
/// `String`s sort in.
pub open spec fn lex_le(a: Seq<char>, b: Seq<char>) -> bool
    decreases a.len(),
{
    if a.len() == 0 {
        true
    } else if b.len() == 0 {
        false
    } else if (a[0] as u32) < (b[0] as u32) {
        true
    } else if (a[0] as u32) > (b[0] as u32) {
        false
    } else {
        lex_le(a.drop_first(), b.drop_first())
    }
}

/// Any two sequences are ordered one way or the other.
pub proof fn lemma_lex_total(a: Seq<char>, b: Seq<char>)
    ensures
        lex_le(a, b) || lex_le(b, a),
    decreases a.len(),
{
    if a.len() > 0 && b.len() > 0 && (a[0] as u32) == (b[0] as u32) {
        lemma_lex_total(a.drop_first(), b.drop_first());
    }
}

/// The order is transitive.
pub proof fn lemma_lex_trans(a: Seq<char>, b: Seq<char>, c: Seq<char>)
    requires
        lex_le(a, b),
        lex_le(b, c),
    ensures
        lex_le(a, c),
    decreases a.len(),
{
    if a.len() > 0 && b.len() > 0 && c.len() > 0 && (a[0] as u32) == (b[0] as u32) && (b[0] as u32)
        == (c[0] as u32) {
        lemma_lex_trans(a.drop_first(), b.drop_first(), c.drop_first());
    }
}

/// Decide the lexicographic order of two character vectors.
pub fn lex_le_chars(a: &Vec<char>, b: &Vec<char>) -> (r: bool)
    ensures
        r == lex_le(a@, b@),
{
    let na = a.len();
    let nb = b.len();
    proof {
        assert(a@.skip(0) =~= a@);
        assert(b@.skip(0) =~= b@);
    }
    let mut i: usize = 0;
    while i < na && i < nb
        invariant
            na == a@.len(),
            nb == b@.len(),
            i <= na,
            i <= nb,
            lex_le(a@, b@) == lex_le(a@.skip(i as int), b@.skip(i as int)),
        decreases na - i,
    {
        let ca = a[i] as u32;
        let cb = b[i] as u32;
        if ca < cb {
            return true;
        }
        if ca > cb {
            return false;
        }
        proof {
            assert(a@.skip(i as int).drop_first() =~= a@.skip(i + 1));
            assert(b@.skip(i as int).drop_first() =~= b@.skip(i + 1));
        }
        i = i + 1;
    }
    i == na
}

/// The decimal digit character for `d`.
pub open spec fn dec_digit(d: int) -> char {
    if d == 0 {
        '0'
    } else if d == 1 {
        '1'
    } else if d == 2 {
        '2'
    } else if d == 3 {
        '3'
    } else if d == 4 {
        '4'
    } else if d == 5 {
        '5'
    } else if d == 6 {
        '6'
    } else if d == 7 {
        '7'
    } else if d == 8 {
        '8'
    } else {
        '9'
    }
}

/// The decimal digits of `n`, most significant first, no leading zeros
/// (a single `'0'` for zero).
pub open spec fn dec_seq(n: nat) -> Seq<char>
    decreases n,
{
    if n < 10 {
        seq![dec_digit(n as int)]
    } else {
        dec_seq(n / 10).push(dec_digit((n % 10) as int))
    }
}

fn digit_str(d: usize) -> (r: &'static str)
    requires
        d < 10,
    ensures
        r@ == seq![dec_digit(d as int)],
{
    proof {
        reveal_strlit("0");
        reveal_strlit("1");
        reveal_strlit("2");
        reveal_strlit("3");
        reveal_strlit("4");
        reveal_strlit("5");
        reveal_strlit("6");
        reveal_strlit("7");
        reveal_strlit("8");
        reveal_strlit("9");
    }
    let r: &'static str = if d == 0 {
        "0"
    } else if d == 1 {
        "1"
    } else if d == 2 {
        "2"
    } else if d == 3 {
        "3"
    } else if d == 4 {
        "4"
    } else if d == 5 {
        "5"
    } else if d == 6 {
        "6"
    } else if d == 7 {
        "7"
    } else if d == 8 {
        "8"
    } else {
        "9"
    };
    assert(r@ =~= seq![dec_digit(d as int)]);
    r
}

/// Render `n` in decimal.
pub fn usize_to_string(n: usize) -> (r: String)
    ensures
        r@ == dec_seq(n as nat),
    decreases n,
{
    if n < 10 {
        digit_str(n).to_owned()
    } else {
        let mut r = usize_to_string(n / 10);
        r.append(digit_str(n % 10));
        proof {
            assert(dec_seq((n / 10) as nat) + seq![dec_digit((n % 10) as int)] =~= dec_seq(
                (n / 10) as nat,
            ).push(dec_digit((n % 10) as int)));
            assert((n / 10) as nat == (n as nat) / 10);
            assert((n % 10) as int == (n as nat) % 10);
        }
        r
    }
}

/// The raw segments of a multi-value answer: split on `;` when present,
/// otherwise on `,` when present, otherwise the whole value is one segment.
pub open spec fn raw_pieces(v: Seq<char>) -> Seq<Seq<char>> {
    if v.contains(';') {
        split_on(v, ';')
    } else if v.contains(',') {
        split_on(v, ',')
    } else {
        seq![v]
    }
}

/// Trim every segment and drop the ones that end up empty.
pub open spec fn trimmed_nonempty(ps: Seq<Seq<char>>) -> Seq<Seq<char>>
    decreases ps.len(),
{
    if ps.len() == 0 {
        Seq::<Seq<char>>::empty()
    } else {
        let rest = trimmed_nonempty(ps.drop_last());
        let t = trim_spec(ps.last());
        if t.len() > 0 {
            rest.push(t)
        } else {
            rest
        }
    }
}

/// Trim every segment, keeping empty ones.
pub open spec fn trimmed_all(ps: Seq<Seq<char>>) -> Seq<Seq<char>>
    decreases ps.len(),
{
    if ps.len() == 0 {
        Seq::<Seq<char>>::empty()
    } else {
        trimmed_all(ps.drop_last()).push(trim_spec(ps.last()))
    }
}

/// The option values carried by one multiple-choice answer, as counted by
/// distributions: trimmed segments, empty ones dropped.
pub open spec fn multi_pieces(v: Seq<char>) -> Seq<Seq<char>> {
    trimmed_nonempty(raw_pieces(v))
}

/// The option values observed in one answer while a dataset is loaded:
/// trimmed segments, empty ones kept.
pub open spec fn load_pieces(v: Seq<char>) -> Seq<Seq<char>> {
    trimmed_all(raw_pieces(v))
}

/// A valid answer with no delimiter always contributes at least one
/// option value to a multiple-choice distribution. (A value made of
/// delimiters alone, such as `";;;"`, is valid yet splits into
/// nothing.)
pub proof fn lemma_plain_value_contributes(v: Seq<char>)
    requires
        is_valid_answer(v),
        !v.contains(';'),
        !v.contains(','),
    ensures
        multi_pieces(v).len() > 0,
{
    assert(raw_pieces(v) =~~= seq![v]);
    assert(seq![v].drop_last() =~~= Seq::<Seq<char>>::empty());
    assert(trimmed_nonempty(Seq::<Seq<char>>::empty()) =~~= Seq::<Seq<char>>::empty());
    assert(trimmed_nonempty(seq![v]) =~~= Seq::<Seq<char>>::empty().push(trim_spec(v)));
}

fn split_raw(s: &str) -> (r: Vec<String>)
    ensures
        str_views(r@) == raw_pieces(s@),
{
    let v = to_char_vec(s);
    if contains_char(&v, ';') {
        split_str(s, ';')
    } else if contains_char(&v, ',') {
        split_str(s, ',')
    } else {
        let mut r: Vec<String> = Vec::new();
        r.push(s.to_owned());
        assert(str_views(r@) =~~= seq![s@]);
        r
    }
}

/// The option values of a multiple-choice answer (trimmed, empties
/// dropped), as owned strings.
pub fn split_multi(s: &str) -> (r: Vec<String>)
    ensures
        str_views(r@) == multi_pieces(s@),
{
    let raw = split_raw(s);
    let n = raw.len();
    let mut out: Vec<String> = Vec::new();
    proof {
        assert(str_views(raw@).take(0) =~~= Seq::<Seq<char>>::empty());
        assert(str_views(out@) =~~= Seq::<Seq<char>>::empty());
    }
    let mut i: usize = 0;
    while i < n
        invariant
            n == raw@.len(),
            i <= n,
            str_views(raw@) == raw_pieces(s@),
            str_views(out@) == trimmed_nonempty(str_views(raw@).take(i as int)),
        decreases n - i,
    {
        let t = trim_str(raw[i].as_str());
        proof {
            let pfx = str_views(raw@).take(i + 1);
            assert(pfx.drop_last() =~~= str_views(raw@).take(i as int));
            assert(pfx.last() == raw@[i as int]@);
            assert(str_views(out@.push(t)) =~~= str_views(out@).push(t@));
        }
        if t.unicode_len() > 0 {
            out.push(t);
        }
        i = i + 1;
    }
    proof {
        assert(str_views(raw@).take(n as int) =~~= str_views(raw@));
    }
    out
}

/// The option values observed in one answer at load time (trimmed,
/// empties kept), as owned strings.
pub fn split_load(s: &str) -> (r: Vec<String>)
    ensures
        str_views(r@) == load_pieces(s@),
{
    let raw = split_raw(s);
    let n = raw.len();
    let mut out: Vec<String> = Vec::new();
    proof {
        assert(str_views(raw@).take(0) =~~= Seq::<Seq<char>>::empty());
        assert(str_views(out@) =~~= Seq::<Seq<char>>::empty());
    }
    let mut i: usize = 0;
    while i < n
        invariant
            n == raw@.len(),
            i <= n,
            str_views(raw@) == raw_pieces(s@),
            str_views(out@) == trimmed_all(str_views(raw@).take(i as int)),
        decreases n - i,
    {
        let t = trim_str(raw[i].as_str());
        proof {
            let pfx = str_views(raw@).take(i + 1);
            assert(pfx.drop_last() =~~= str_views(raw@).take(i as int));
            assert(pfx.last() == raw@[i as int]@);
            assert(str_views(out@.push(t)) =~~= str_views(out@).push(t@));
        }
        out.push(t);
        i = i + 1;
    }
    proof {
        assert(str_views(raw@).take(n as int) =~~= str_views(raw@));
    }
    out
}

} // verus!
