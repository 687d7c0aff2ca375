//! Character-sequence helpers used by the scanner's parsers and renderers.
//!
//! Text is handled as `Vec<char>` inside the library; the specifications
//! speak of `Seq<char>`, the view of both `Vec<char>` and `String`.

use vstd::prelude::*;

verus! {

// ---------------------------------------------------------------------------
// Specifications
// ---------------------------------------------------------------------------

/// `p` is a prefix of `s`.
pub open spec fn starts_with(s: Seq<char>, p: Seq<char>) -> bool {
    p.len() <= s.len() && s.subrange(0, p.len() as int) == p
}

/// `p` is a suffix of `s`.
pub open spec fn ends_with(s: Seq<char>, p: Seq<char>) -> bool {
    p.len() <= s.len() && s.subrange(s.len() - p.len(), s.len() as int) == p
}

/// `p` occurs somewhere in `s`.
pub open spec fn contains(s: Seq<char>, p: Seq<char>) -> bool {
    exists|i: int| 0 <= i && i + p.len() <= s.len() && #[trigger] s.subrange(i, i + p.len()) == p
}

/// Unicode `White_Space`, the property behind `char::is_whitespace`.
pub open spec fn is_whitespace(c: char) -> bool {
    let n = c as u32;
    ||| 0x9 <= n <= 0xd
    ||| n == 0x20
    ||| n == 0x85
    ||| n == 0xa0
    ||| n == 0x1680
    ||| 0x2000 <= n <= 0x200a
    ||| n == 0x2028
    ||| n == 0x2029
    ||| n == 0x202f
    ||| n == 0x205f
    ||| n == 0x3000
}

/// `s` without its leading whitespace.
pub open spec fn trim_start(s: Seq<char>) -> Seq<char>
    decreases s.len(),
{
    if s.len() > 0 && is_whitespace(s[0]) {
        trim_start(s.drop_first())
    } else {
        s
    }
}

/// `s` without its trailing whitespace.
pub open spec fn trim_end(s: Seq<char>) -> Seq<char>
    decreases s.len(),
{
    if s.len() > 0 && is_whitespace(s.last()) {
        trim_end(s.drop_last())
    } else {
        s
    }
}

/// `s` without leading and trailing whitespace, as `str::trim` gives it.
pub open spec fn trim(s: Seq<char>) -> Seq<char> {
    trim_end(trim_start(s))
}

/// The pieces of `s` between separators, as `str::split` gives them: one more
/// piece than there are separators, empty pieces included.
pub open spec fn split_by(s: Seq<char>, sep: spec_fn(char) -> bool) -> Seq<Seq<char>>
    decreases s.len(),
{
    if s.len() == 0 {
        seq![Seq::empty()]
    } else {
        let prev = split_by(s.drop_last(), sep);
        if sep(s.last()) {
            prev.push(Seq::empty())
        } else {
            prev.update(prev.len() - 1, prev.last().push(s.last()))
        }
    }
}

/// Separator of lines: `'\n'`.
pub open spec fn newline_sep() -> spec_fn(char) -> bool {
    |c: char| c == '\n'
}

/// Separator of index records: `'\n'` or `'\0'`.
pub open spec fn record_sep() -> spec_fn(char) -> bool {
    |c: char| c == '\n' || c == '\0'
}

/// The decimal digit for `d < 10`.
pub open spec fn digit_char(d: nat) -> char {
    (48 + d) as char
}

/// Decimal rendering of a natural number, without sign or leading zeros.
pub open spec fn decimal(n: nat) -> Seq<char>
    decreases n,
{
    if n < 10 {
        seq![digit_char(n)]
    } else {
        decimal(n / 10).push(digit_char(n % 10))
    }
}

/// `"true"` or `"false"`.
pub open spec fn bool_text(b: bool) -> Seq<char> {
    if b {
        seq!['t', 'r', 'u', 'e']
    } else {
        seq!['f', 'a', 'l', 's', 'e']
    }
}

/// Lexicographic order on character sequences by code point, the order of
/// `String`'s `Ord` (UTF-8 preserves code-point order).
pub open spec fn text_lt(a: Seq<char>, b: Seq<char>) -> bool
    decreases a.len(),
{
    if a.len() == 0 {
        b.len() > 0
    } else if b.len() == 0 {
        false
    } else if a[0] != b[0] {
        a[0] < b[0]
    } else {
        text_lt(a.drop_first(), b.drop_first())
    }
}

/// Concatenation of `parts` with `sep` between neighbours, as `join` gives it.
pub open spec fn join(parts: Seq<Seq<char>>, sep: Seq<char>) -> Seq<char>
    decreases parts.len(),
{
    if parts.len() == 0 {
        Seq::empty()
    } else if parts.len() == 1 {
        parts[0]
    } else {
        join(parts.drop_last(), sep) + sep + parts.last()
    }
}

/// Views of a sequence of character vectors.
pub open spec fn texts(v: Seq<Vec<char>>) -> Seq<Seq<char>> {
    v.map_values(|t: Vec<char>| t@)
}

// ---------------------------------------------------------------------------
// Lemmas
// ---------------------------------------------------------------------------

/// `split_by` always yields at least one piece.
pub proof fn lemma_split_nonempty(s: Seq<char>, sep: spec_fn(char) -> bool)
    ensures
        split_by(s, sep).len() >= 1,
    decreases s.len(),
{
    if s.len() > 0 {
        lemma_split_nonempty(s.drop_last(), sep);
    }
}

/// Splitting at one separator: the pieces of `a`, then those of `b`.
pub proof fn lemma_split_at_separator(a: Seq<char>, x: char, b: Seq<char>, sep: spec_fn(char) -> bool)
    requires
        sep(x),
    ensures
        split_by(a.push(x) + b, sep) == split_by(a, sep) + split_by(b, sep),
    decreases b.len(),
{
    if b.len() == 0 {
        assert(a.push(x) + b =~= a.push(x));
        assert(a.push(x).drop_last() =~= a);
        assert(split_by(b, sep) =~= seq![Seq::<char>::empty()]);
        assert(split_by(a, sep).push(Seq::empty()) =~= split_by(a, sep) + seq![Seq::<char>::empty()]);
    } else {
        let c = a.push(x) + b;
        let b0 = b.drop_last();
        assert(c.drop_last() =~= a.push(x) + b0);
        assert(c.last() == b.last());
        lemma_split_at_separator(a, x, b0, sep);
        lemma_split_nonempty(b0, sep);
        let pa = split_by(a, sep);
        let pb = split_by(b0, sep);
        if sep(b.last()) {
            assert((pa + pb).push(Seq::empty()) =~= pa + pb.push(Seq::empty()));
        } else {
            let w = pb.last().push(b.last());
            assert((pa + pb).last() == pb.last());
            assert((pa + pb).update((pa + pb).len() - 1, w) =~= pa + pb.update(pb.len() - 1, w));
        }
    }
}

/// Text without separators is one piece.
pub proof fn lemma_split_plain(s: Seq<char>, sep: spec_fn(char) -> bool)
    requires
        forall|i: int| 0 <= i < s.len() ==> !sep(#[trigger] s[i]),
    ensures
        split_by(s, sep) == seq![s],
    decreases s.len(),
{
    if s.len() == 0 {
        assert(s =~= Seq::<char>::empty());
        assert(split_by(s, sep) =~= seq![s]);
    } else {
        let s0 = s.drop_last();
        assert(forall|i: int| 0 <= i < s0.len() ==> s0[i] == s[i]);
        lemma_split_plain(s0, sep);
        assert(!sep(s[s.len() - 1]));
        assert(!sep(s.last()));
        assert(s0.push(s.last()) =~= s);
        let prev = split_by(s0, sep);
        assert(prev == seq![s0]);
        assert(split_by(s, sep) == prev.update(prev.len() - 1, prev.last().push(s.last())));
        assert(prev.update(0, s0.push(s.last())) =~= seq![s]);
    }
}

/// `text_lt` is irreflexive.
pub proof fn lemma_text_lt_irreflexive(a: Seq<char>)
    ensures
        !text_lt(a, a),
    decreases a.len(),
{
    if a.len() > 0 {
        lemma_text_lt_irreflexive(a.drop_first());
    }
}

/// `text_lt` is asymmetric.
pub proof fn lemma_text_lt_asymmetric(a: Seq<char>, b: Seq<char>)
    ensures
        text_lt(a, b) ==> !text_lt(b, a),
    decreases a.len(),
{
    if a.len() > 0 && b.len() > 0 && a[0] == b[0] {
        lemma_text_lt_asymmetric(a.drop_first(), b.drop_first());
    }
}

/// `text_lt` is transitive.
pub proof fn lemma_text_lt_transitive(a: Seq<char>, b: Seq<char>, c: Seq<char>)
    ensures
        text_lt(a, b) && text_lt(b, c) ==> text_lt(a, c),
    decreases a.len(),
{
    if a.len() > 0 && b.len() > 0 && c.len() > 0 {
        lemma_text_lt_transitive(a.drop_first(), b.drop_first(), c.drop_first());
    }
}

/// Distinct sequences are ordered one way or the other.
pub proof fn lemma_text_lt_total(a: Seq<char>, b: Seq<char>)
    ensures
        a != b ==> text_lt(a, b) || text_lt(b, a),
    decreases a.len(),
{
    if a.len() > 0 && b.len() > 0 {
        lemma_text_lt_total(a.drop_first(), b.drop_first());
        if a[0] == b[0] && a.drop_first() == b.drop_first() {
            assert(a =~= seq![a[0]] + a.drop_first());
            assert(b =~= seq![b[0]] + b.drop_first());
        }
    } else if a.len() == 0 && b.len() == 0 {
        assert(a =~= b);
    }
}

proof fn lemma_trim_start_stops(s: Seq<char>)
    requires
        s.len() == 0 || !is_whitespace(s[0]),
    ensures
        trim_start(s) == s,
{
}

proof fn lemma_trim_end_stops(s: Seq<char>)
    requires
        s.len() == 0 || !is_whitespace(s.last()),
    ensures
        trim_end(s) == s,
{
}

// ---------------------------------------------------------------------------
// Conversions
// ---------------------------------------------------------------------------

/// The characters of `s`, in order.
pub fn chars_of(s: &str) -> (r: Vec<char>)
    ensures
        r@ == s@,
{
    let mut r: Vec<char> = Vec::new();
    for c in it: s.chars()
        invariant
            r@ == it.seq().take(it.index()),
    {
        r.push(c);
    }
    r
}

/// `String` collected from characters (std's `FromIterator<char>` for
/// `String`): the string holds exactly these characters, in order.
#[verifier::external_body]
pub(crate) fn string_from_chars(cs: &Vec<char>) -> (r: String)
    ensures
        r@ == cs@,
{
    cs.iter().collect()
}

/// Appends the characters of `s` to `v`.
pub fn push_str(v: &mut Vec<char>, s: &str)
    ensures
        final(v)@ == old(v)@ + s@,
{
    let ghost start = v@;
    for c in it: s.chars()
        invariant
            v@ == start + it.seq().take(it.index()),
    {
        v.push(c);
    }
}

/// Appends the characters of `s` to `v`.
pub fn push_chars(v: &mut Vec<char>, s: &Vec<char>)
    ensures
        final(v)@ == old(v)@ + s@,
{
    let ghost start = v@;
    let mut i: usize = 0;
    while i < s.len()
        invariant
            i <= s.len(),
            v@ == start + s@.take(i as int),
        decreases s.len() - i,
    {
        v.push(s[i]);
        i = i + 1;
        assert(s@.take(i as int) =~= s@.take(i - 1).push(s@[i - 1]));
    }
    assert(s@.take(i as int) =~= s@);
}

/// A copy of `s`.
pub fn copy_chars(s: &Vec<char>) -> (r: Vec<char>)
    ensures
        r@ == s@,
{
    let mut r: Vec<char> = Vec::new();
    push_chars(&mut r, s);
    assert(r@ =~= s@);
    r
}

/// The characters of `s[from..to]`.
pub fn slice_chars(s: &Vec<char>, from: usize, to: usize) -> (r: Vec<char>)
    requires
        from <= to <= s.len(),
    ensures
        r@ == s@.subrange(from as int, to as int),
{
    let mut r: Vec<char> = Vec::new();
    let mut i: usize = from;
    while i < to
        invariant
            from <= i <= to <= s.len(),
            r@ == s@.subrange(from as int, i as int),
        decreases to - i,
    {
        r.push(s[i]);
        i = i + 1;
        assert(s@.subrange(from as int, i as int) =~= s@.subrange(from as int, i - 1).push(
            s@[i - 1],
        ));
    }
    r
}

/// Appends the decimal rendering of `n` to `v`.
pub fn push_decimal(v: &mut Vec<char>, n: u64)
    ensures
        final(v)@ == old(v)@ + decimal(n as nat),
    decreases n,
{
    if n >= 10 {
        push_decimal(v, n / 10);
    }
    let d: u8 = (n % 10) as u8;
    let c: char = (48u8 + d) as char;
    assert(c == digit_char((n % 10) as nat));
    v.push(c);
    assert(decimal(n as nat) =~= if n < 10 {
        seq![digit_char(n as nat)]
    } else {
        decimal((n / 10) as nat).push(digit_char((n % 10) as nat))
    });
}

/// Appends `"true"` or `"false"` to `v`.
pub fn push_bool(v: &mut Vec<char>, b: bool)
    ensures
        final(v)@ == old(v)@ + bool_text(b),
{
    if b {
        v.push('t');
        v.push('r');
        v.push('u');
        v.push('e');
    } else {
        v.push('f');
        v.push('a');
        v.push('l');
        v.push('s');
        v.push('e');
    }
    assert(final(v)@ =~= old(v)@ + bool_text(b)) by {
        assert(v@ =~= old(v)@ + bool_text(b));
    }
}

// ---------------------------------------------------------------------------
// Comparisons and searches
// ---------------------------------------------------------------------------

/// Whether `a` and `b` hold the same characters.
pub fn eq_chars(a: &Vec<char>, b: &Vec<char>) -> (r: bool)
    ensures
        r == (a@ == b@),
{
    if a.len() != b.len() {
        return false;
    }
    let mut i: usize = 0;
    while i < a.len()
        invariant
            a.len() == b.len(),
            i <= a.len(),
            forall|j: int| 0 <= j < i ==> a@[j] == b@[j],
        decreases a.len() - i,
    {
        if a[i] != b[i] {
            return false;
        }
        i = i + 1;
    }
    assert(a@ =~= b@);
    true
}

/// Whether `a` holds exactly the characters of `s`.
pub fn eq_str(a: &Vec<char>, s: &str) -> (r: bool)
    ensures
        r == (a@ == s@),
{
    let b = chars_of(s);
    eq_chars(a, &b)
}

/// Whether `s[at..at + p.len()]` is `p`.
pub fn matches_at(s: &Vec<char>, at: usize, p: &Vec<char>) -> (r: bool)
    requires
        at + p.len() <= s.len(),
    ensures
        r == (s@.subrange(at as int, at + p.len()) == p@),
{
    let mut i: usize = 0;
    while i < p.len()
        invariant
            at + p.len() <= s.len(),
            i <= p.len(),
            forall|j: int| 0 <= j < i ==> s@[at + j] == p@[j],
        decreases p.len() - i,
    {
        if s[at + i] != p[i] {
            assert(s@.subrange(at as int, at + p.len())[i as int] != p@[i as int]);
            return false;
        }
        i = i + 1;
    }
    assert(s@.subrange(at as int, at + p.len()) =~= p@);
    true
}

/// Whether `s` begins with `p`.
pub fn starts_with_str(s: &Vec<char>, p: &str) -> (r: bool)
    ensures
        r == starts_with(s@, p@),
{
    let pc = chars_of(p);
    if pc.len() > s.len() {
        return false;
    }
    matches_at(s, 0, &pc)
}

/// Whether `s` ends with `p`.
pub fn ends_with_str(s: &Vec<char>, p: &str) -> (r: bool)
    ensures
        r == ends_with(s@, p@),
{
    let pc = chars_of(p);
    if pc.len() > s.len() {
        return false;
    }
    matches_at(s, s.len() - pc.len(), &pc)
}

/// Whether `p` occurs in `s`.
pub fn contains_str(s: &Vec<char>, p: &str) -> (r: bool)
    ensures
        r == contains(s@, p@),
{
    let pc = chars_of(p);
    if pc.len() > s.len() {
        assert(!contains(s@, p@));
        return false;
    }
    if pc.len() == 0 {
        assert(s@.subrange(0, 0 + p@.len() as int) =~= p@);
        return true;
    }
    let last = s.len() - pc.len();
    let mut i: usize = 0;
    while i <= last
        invariant
            last + pc.len() == s.len(),
            pc.len() > 0,
            pc@ == p@,
            forall|j: int| 0 <= j < i ==> #[trigger] s@.subrange(j, j + p@.len()) != p@,
        decreases last + 1 - i,
    {
        if matches_at(s, i, &pc) {
            return true;
        }
        i = i + 1;
    }
    assert(!contains(s@, p@)) by {
        if contains(s@, p@) {
            let k = choose|k: int|
                0 <= k && k + p@.len() <= s@.len() && #[trigger] s@.subrange(k, k + p@.len()) == p@;
            assert(s@.subrange(k, k + p@.len()) != p@);
        }
    }
    false
}

/// The first position of `c` in `s`, as `str::find` with a character.
pub fn find_char(s: &Vec<char>, c: char) -> (r: Option<usize>)
    ensures
        r matches Some(i) ==> i < s.len() && s@.index_of_first(c) == Some(i as int),
        r is None ==> s@.index_of_first(c) is None,
{
    let mut i: usize = 0;
    while i < s.len()
        invariant
            i <= s.len(),
            forall|j: int| 0 <= j < i ==> s@[j] != c,
        decreases s.len() - i,
    {
        if s[i] == c {
            proof {
                s@.index_of_first_ensures(c);
                assert(s@.contains(c)) by {
                    assert(s@[i as int] == c);
                }
                let k = s@.index_of_first(c).unwrap();
                assert(k == i) by {
                    if k < i {
                        assert(s@[k] != c);
                    }
                    if i < k {
                        assert(s@[i as int] != c);
                    }
                }
            }
            return Some(i);
        }
        i = i + 1;
    }
    proof {
        s@.index_of_first_ensures(c);
    }
    None
}

/// The last position of `c` in `s`, as `str::rfind` with a character.
pub fn rfind_char(s: &Vec<char>, c: char) -> (r: Option<usize>)
    ensures
        r matches Some(i) ==> i < s.len() && s@.index_of_last(c) == Some(i as int),
        r is None ==> s@.index_of_last(c) is None,
{
    let mut i: usize = s.len();
    while i > 0
        invariant
            i <= s.len(),
            forall|j: int| i <= j < s.len() ==> s@[j] != c,
        decreases i,
    {
        if s[i - 1] == c {
            proof {
                s@.index_of_last_ensures(c);
                assert(s@.contains(c)) by {
                    assert(s@[i - 1] == c);
                }
                let k = s@.index_of_last(c).unwrap();
                assert(k == i - 1) by {
                    if k < i - 1 {
                        assert(s@[i - 1] != c);
                    }
                    if i - 1 < k {
                        assert(s@[k] != c);
                    }
                }
            }
            return Some(i - 1);
        }
        i = i - 1;
    }
    proof {
        s@.index_of_last_ensures(c);
    }
    None
}

/// Whether `a` comes before `b` in code-point order.
pub fn text_lt_exec(a: &Vec<char>, b: &Vec<char>) -> (r: bool)
    ensures
        r == text_lt(a@, b@),
{
    let mut i: usize = 0;
    assert(a@.skip(0) =~= a@);
    assert(b@.skip(0) =~= b@);
    while i < a.len() && i < b.len() && a[i] == b[i]
        invariant
            i <= a.len(),
            i <= b.len(),
            text_lt(a@, b@) == text_lt(a@.skip(i as int), b@.skip(i as int)),
        decreases a.len() - i,
    {
        assert(a@.skip(i as int).drop_first() =~= a@.skip(i + 1));
        assert(b@.skip(i as int).drop_first() =~= b@.skip(i + 1));
        i = i + 1;
    }
    if i == a.len() {
        i < b.len()
    } else if i == b.len() {
        false
    } else {
        a[i] < b[i]
    }
}

/// Whether `c` is whitespace.
pub fn is_whitespace_exec(c: char) -> (r: bool)
    ensures
        r == is_whitespace(c),
{
    let n = c as u32;
    (0x9 <= n && n <= 0xd) || n == 0x20 || n == 0x85 || n == 0xa0 || n == 0x1680 || (0x2000 <= n
        && n <= 0x200a) || n == 0x2028 || n == 0x2029 || n == 0x202f || n == 0x205f || n == 0x3000
}

/// `s` without leading and trailing whitespace.
pub fn trim_chars(s: &Vec<char>) -> (r: Vec<char>)
    ensures
        r@ == trim(s@),
{
    let n = s.len();
    let mut i: usize = 0;
    assert(s@.skip(0) =~= s@);
    while i < n && is_whitespace_exec(s[i])
        invariant
            n == s.len(),
            i <= n,
            trim_start(s@) == trim_start(s@.skip(i as int)),
        decreases n - i,
    {
        assert(s@.skip(i as int).drop_first() =~= s@.skip(i + 1));
        i = i + 1;
    }
    proof {
        lemma_trim_start_stops(s@.skip(i as int));
        assert(s@.skip(i as int) =~= s@.subrange(i as int, n as int));
    }
    let mut j: usize = n;
    while j > i && is_whitespace_exec(s[j - 1])
        invariant
            n == s.len(),
            i <= j <= n,
            trim_end(s@.subrange(i as int, n as int)) == trim_end(s@.subrange(i as int, j as int)),
        decreases j,
    {
        assert(s@.subrange(i as int, j as int).drop_last() =~= s@.subrange(i as int, j - 1));
        j = j - 1;
    }
    proof {
        lemma_trim_end_stops(s@.subrange(i as int, j as int));
    }
    slice_chars(s, i, j)
}

/// The pieces of `s` between the separators `'\n'` (and `'\0'` when
/// `nul_too`), as `str::split` gives them.
pub fn split_pieces(s: &Vec<char>, nul_too: bool) -> (r: Vec<Vec<char>>)
    ensures
        texts(r@) == split_by(
            s@,
            if nul_too {
                record_sep()
            } else {
                newline_sep()
            },
        ),
{
    let ghost sep = if nul_too {
        record_sep()
    } else {
        newline_sep()
    };
    let mut pieces: Vec<Vec<char>> = Vec::new();
    let mut current: Vec<char> = Vec::new();
    let mut i: usize = 0;
    assert(s@.take(0) =~= Seq::<char>::empty());
    assert(texts(pieces@).push(current@) =~= split_by(s@.take(0), sep));
    while i < s.len()
        invariant
            i <= s.len(),
            sep == (if nul_too {
                record_sep()
            } else {
                newline_sep()
            }),
            texts(pieces@).push(current@) == split_by(s@.take(i as int), sep),
        decreases s.len() - i,
    {
        let c = s[i];
        let ghost before = texts(pieces@).push(current@);
        proof {
            lemma_split_nonempty(s@.take(i as int), sep);
            assert(s@.take(i + 1).drop_last() =~= s@.take(i as int));
            assert(s@.take(i + 1).last() == c);
        }
        if c == '\n' || (nul_too && c == '\0') {
            assert(sep(c));
            pieces.push(current);
            current = Vec::new();
            assert(texts(pieces@).push(current@) =~= before.push(Seq::empty()));
        } else {
            assert(!sep(c));
            current.push(c);
            assert(texts(pieces@).push(current@) =~= before.update(
                before.len() - 1,
                before.last().push(c),
            ));
        }
        i = i + 1;
    }
    assert(s@.take(s.len() as int) =~= s@);
    pieces.push(current);
    pieces
}

} // verus!
