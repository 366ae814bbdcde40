//! Character-level string operations with their meaning stated over `Seq<char>`:
//! trimming, replacing, splitting and decimal formatting.
use vstd::prelude::*;

verus! {

/// `String::push` appends one character.
pub assume_specification[ String::push ](s: &mut String, ch: char)
    ensures
        final(s)@ == old(s)@.push(ch),
;

/// The characters with the Unicode `White_Space` property, the ones that
/// `char::is_whitespace` accepts.
pub open spec fn is_white(c: char) -> bool {
    ||| ('\u{9}' <= c && c <= '\u{d}')
    ||| c == ' '
    ||| c == '\u{85}'
    ||| c == '\u{a0}'
    ||| c == '\u{1680}'
    ||| ('\u{2000}' <= c && c <= '\u{200a}')
    ||| c == '\u{2028}'
    ||| c == '\u{2029}'
    ||| c == '\u{202f}'
    ||| c == '\u{205f}'
    ||| c == '\u{3000}'
}

/// `s` without its leading whitespace.
pub open spec fn trim_start(s: Seq<char>) -> Seq<char>
    decreases s.len(),
{
    if s.len() > 0 && is_white(s[0]) {
        trim_start(s.drop_first())
    } else {
        s
    }
}

/// `s` without its trailing whitespace.
pub open spec fn trim_end(s: Seq<char>) -> Seq<char>
    decreases s.len(),
{
    if s.len() > 0 && is_white(s.last()) {
        trim_end(s.drop_last())
    } else {
        s
    }
}

/// `s` without leading and trailing whitespace (`str::trim`).
pub open spec fn trim(s: Seq<char>) -> Seq<char> {
    trim_end(trim_start(s))
}

/// `s` without the copies of `c` at its end (`str::trim_end_matches` with a char).
pub open spec fn trim_end_char(s: Seq<char>, c: char) -> Seq<char>
    decreases s.len(),
{
    if s.len() > 0 && s.last() == c {
        trim_end_char(s.drop_last(), c)
    } else {
        s
    }
}

/// `s` with every occurrence of `pat` replaced by `rep`, the occurrences taken
/// from left to right without overlap (`str::replace` for a non-empty pattern).
pub open spec fn replace(s: Seq<char>, pat: Seq<char>, rep: Seq<char>) -> Seq<char>
    recommends
        pat.len() > 0,
    decreases s.len(),
{
    if s.len() == 0 || pat.len() == 0 {
        s
    } else if pat.is_prefix_of(s) {
        rep + replace(s.skip(pat.len() as int), pat, rep)
    } else {
        seq![s[0]] + replace(s.drop_first(), pat, rep)
    }
}

/// The pieces of `s` between the occurrences of `sep` (`str::split` with a
/// char): there is always one piece more than there are separators.
pub open spec fn split(s: Seq<char>, sep: char) -> Seq<Seq<char>>
    decreases s.len(),
{
    if s.len() == 0 {
        seq![Seq::<char>::empty()]
    } else {
        let prev = split(s.drop_last(), sep);
        if s.last() == sep {
            prev.push(Seq::<char>::empty())
        } else {
            prev.update(prev.len() - 1, prev.last().push(s.last()))
        }
    }
}

/// The character of the decimal digit `d`.
pub open spec fn digit_char(d: nat) -> char {
    if d == 0 { '0' }
    else if d == 1 { '1' }
    else if d == 2 { '2' }
    else if d == 3 { '3' }
    else if d == 4 { '4' }
    else if d == 5 { '5' }
    else if d == 6 { '6' }
    else if d == 7 { '7' }
    else if d == 8 { '8' }
    else { '9' }
}

/// The decimal notation of `n`, without leading zeros.
pub open spec fn decimal(n: nat) -> Seq<char>
    decreases n,
{
    if n < 10 {
        seq![digit_char(n)]
    } else {
        decimal(n / 10).push(digit_char(n % 10))
    }
}

/// `split` never yields an empty list.
pub proof fn lemma_split_nonempty(s: Seq<char>, sep: char)
    ensures
        split(s, sep).len() >= 1,
    decreases s.len(),
{
    if s.len() > 0 {
        lemma_split_nonempty(s.drop_last(), sep);
    }
}

/// Whether `c` is whitespace.
pub fn is_white_char(c: char) -> (r: bool)
    ensures
        r == is_white(c),
{
    ('\u{9}' <= c && c <= '\u{d}') || c == ' ' || c == '\u{85}' || c == '\u{a0}'
        || c == '\u{1680}' || ('\u{2000}' <= c && c <= '\u{200a}') || c == '\u{2028}'
        || c == '\u{2029}' || c == '\u{202f}' || c == '\u{205f}' || c == '\u{3000}'
}

/// The characters of `s`, in order.
pub fn chars_of(s: &str) -> (v: Vec<char>)
    ensures
        v@ == s@,
{
    let mut v: Vec<char> = Vec::new();
    for c in it: s.chars()
        invariant
            v@ == it.seq().take(it.index()),
    {
        v.push(c);
    }
    v
}

/// Appends `v[from..to]` to `buf`.
pub fn push_range(buf: &mut String, v: &Vec<char>, from: usize, to: usize)
    requires
        from <= to <= v@.len(),
    ensures
        final(buf)@ == old(buf)@ + v@.subrange(from as int, to as int),
{
    let mut k: usize = from;
    while k < to
        invariant
            from <= k <= to <= v@.len(),
            buf@ == old(buf)@ + v@.subrange(from as int, k as int),
        decreases to - k,
    {
        buf.push(v[k]);
        assert(v@.subrange(from as int, k + 1) =~= v@.subrange(from as int, k as int).push(v@[k as int]));
        k += 1;
    }
}

/// `s` with leading and trailing whitespace removed.
pub fn trim_str(s: &str) -> (r: String)
    ensures
        r@ == trim(s@),
{
    let v = chars_of(s);
    let n = v.len();
    let mut i: usize = 0;
    assert(v@.skip(0) =~= v@);
    while i < n && is_white_char(v[i])
        invariant
            i <= n == v@.len(),
            trim_start(v@.skip(i as int)) == trim_start(v@),
        decreases n - i,
    {
        assert(v@.skip(i as int).drop_first() =~= v@.skip(i + 1));
        i += 1;
    }
    assert(trim_start(v@.skip(i as int)) == v@.skip(i as int));
    let mut j: usize = n;
    assert(v@.subrange(i as int, n as int) =~= v@.skip(i as int));
    while j > i && is_white_char(v[j - 1])
        invariant
            i <= j <= n == v@.len(),
            trim_end(v@.subrange(i as int, j as int)) == trim_end(v@.skip(i as int)),
        decreases j,
    {
        assert(v@.subrange(i as int, j as int).drop_last() =~= v@.subrange(i as int, j - 1));
        j -= 1;
    }
    assert(trim_end(v@.subrange(i as int, j as int)) == v@.subrange(i as int, j as int));
    let mut r = String::new();
    push_range(&mut r, &v, i, j);
    assert(r@ =~= v@.subrange(i as int, j as int));
    r
}

/// Whether `pat` occurs in `v` at position `i`.
fn matches_at(v: &Vec<char>, i: usize, pat: &Vec<char>) -> (r: bool)
    requires
        i <= v@.len(),
    ensures
        r == pat@.is_prefix_of(v@.skip(i as int)),
{
    let vl = v.len();
    if pat.len() > vl - i {
        return false;
    }
    let mut k: usize = 0;
    while k < pat.len()
        invariant
            k <= pat@.len(),
            vl == v@.len(),
            i + pat@.len() <= v@.len(),
            forall|m: int| 0 <= m < k ==> pat@[m] == v@[i + m],
        decreases pat@.len() - k,
    {
        assert(i + k < v@.len());
        if pat[k] != v[i + k] {
            assert(v@.skip(i as int).subrange(0, pat@.len() as int)[k as int] == v@[i + k]);
            return false;
        }
        k += 1;
    }
    assert(pat@ =~= v@.skip(i as int).subrange(0, pat@.len() as int));
    true
}

/// `s` with every occurrence of the non-empty `pat` replaced by `rep`.
pub fn replace_str(s: &str, pat: &str, rep: &str) -> (r: String)
    requires
        pat@.len() > 0,
    ensures
        r@ == replace(s@, pat@, rep@),
{
    let v = chars_of(s);
    let p = chars_of(pat);
    let n = v.len();
    let mut out = String::new();
    let mut i: usize = 0;
    assert(v@.skip(0) =~= v@);
    while i < n
        invariant
            i <= n == v@.len(),
            p@ == pat@,
            p@.len() > 0,
            replace(v@, p@, rep@) == out@ + replace(v@.skip(i as int), p@, rep@),
        decreases n - i,
    {
        let ghost rest = v@.skip(i as int);
        if matches_at(&v, i, &p) {
            let ghost before = out@;
            out.append(rep);
            assert(rest.skip(p@.len() as int) =~= v@.skip(i + p@.len()));
            assert(before + (rep@ + replace(rest.skip(p@.len() as int), p@, rep@))
                =~= out@ + replace(v@.skip(i + p@.len()), p@, rep@));
            i += p.len();
        } else {
            let ghost before = out@;
            out.push(v[i]);
            assert(rest.drop_first() =~= v@.skip(i + 1));
            assert(before + (seq![rest[0]] + replace(rest.drop_first(), p@, rep@))
                =~= out@ + replace(v@.skip(i + 1), p@, rep@));
            i += 1;
        }
    }
    assert(v@.skip(n as int) =~= Seq::<char>::empty());
    assert(out@ + Seq::<char>::empty() =~= out@);
    out
}

/// The character of the decimal digit `d`.
pub fn digit_to_char(d: u8) -> (c: char)
    requires
        d < 10,
    ensures
        c == digit_char(d as nat),
{
    if d == 0 { '0' }
    else if d == 1 { '1' }
    else if d == 2 { '2' }
    else if d == 3 { '3' }
    else if d == 4 { '4' }
    else if d == 5 { '5' }
    else if d == 6 { '6' }
    else if d == 7 { '7' }
    else if d == 8 { '8' }
    else { '9' }
}

/// Appends the decimal notation of `n` to `buf`.
pub fn push_decimal(buf: &mut String, n: u128)
    ensures
        final(buf)@ == old(buf)@ + decimal(n as nat),
    decreases n,
{
    if n >= 10 {
        push_decimal(buf, n / 10);
    }
    let d = (n % 10) as u8;
    buf.push(digit_to_char(d));
    assert(final(buf)@ =~= old(buf)@ + decimal(n as nat)) by {
        if n >= 10 {
            assert(old(buf)@ + decimal(n as nat / 10).push(digit_char(n as nat % 10))
                =~= (old(buf)@ + decimal(n as nat / 10)).push(digit_char(n as nat % 10)));
        }
    }
}

/// Whether `a` and `b` hold the same characters.
pub fn str_eq(a: &str, b: &str) -> (r: bool)
    ensures
        r == (a@ == b@),
{
    let x = String::from_str(a);
    let y = String::from_str(b);
    x == y
}

/// `s` without the copies of `c` at its end.
pub fn trim_end_char_str(s: &str, c: char) -> (r: String)
    ensures
        r@ == trim_end_char(s@, c),
{
    let v = chars_of(s);
    let mut j: usize = v.len();
    assert(v@.subrange(0, j as int) =~= v@);
    while j > 0 && v[j - 1] == c
        invariant
            j <= v@.len(),
            trim_end_char(v@.subrange(0, j as int), c) == trim_end_char(v@, c),
        decreases j,
    {
        assert(v@.subrange(0, j as int).drop_last() =~= v@.subrange(0, j - 1));
        j -= 1;
    }
    let mut r = String::new();
    push_range(&mut r, &v, 0, j);
    assert(r@ =~= v@.subrange(0, j as int));
    r
}

/// The pieces of `s` between the occurrences of `sep`.
pub fn split_str(s: &str, sep: char) -> (r: Vec<String>)
    ensures
        r@.len() == split(s@, sep).len(),
        forall|k: int| 0 <= k < r@.len() ==> #[trigger] r@[k]@ == split(s@, sep)[k],
{
    let v = chars_of(s);
    let n = v.len();
    let mut pieces: Vec<String> = Vec::new();
    let mut cur = String::new();
    let mut i: usize = 0;
    assert(v@.take(0) =~= Seq::<char>::empty());
    while i < n
        invariant
            i <= n == v@.len(),
            pieces@.len() + 1 == split(v@.take(i as int), sep).len(),
            forall|k: int| 0 <= k < pieces@.len() ==> #[trigger] pieces@[k]@ == split(v@.take(i as int), sep)[k],
            cur@ == split(v@.take(i as int), sep).last(),
        decreases n - i,
    {
        proof {
            lemma_split_nonempty(v@.take(i as int), sep);
        }
        assert(v@.take(i + 1).drop_last() =~= v@.take(i as int));
        assert(v@.take(i + 1).last() == v@[i as int]);
        if v[i] == sep {
            let done = cur;
            pieces.push(done);
            cur = String::new();
        } else {
            cur.push(v[i]);
        }
        i += 1;
    }
    assert(v@.take(n as int) =~= v@);
    proof {
        lemma_split_nonempty(v@, sep);
    }
    pieces.push(cur);
    pieces
}

/// What `trim_start` leaves is empty or starts with a non-whitespace character.
pub proof fn lemma_trim_start_head(s: Seq<char>)
    ensures
        trim_start(s).len() == 0 || !is_white(trim_start(s)[0]),
    decreases s.len(),
{
    if s.len() > 0 && is_white(s[0]) {
        lemma_trim_start_head(s.drop_first());
    }
}

/// `trim_end` keeps a prefix, and what it keeps is empty or ends with a
/// non-whitespace character.
pub proof fn lemma_trim_end_prefix(s: Seq<char>)
    ensures
        trim_end(s).len() <= s.len(),
        trim_end(s) =~= s.take(trim_end(s).len() as int),
        trim_end(s).len() == 0 || !is_white(trim_end(s).last()),
    decreases s.len(),
{
    if s.len() > 0 && is_white(s.last()) {
        lemma_trim_end_prefix(s.drop_last());
        assert(s.drop_last().take(trim_end(s).len() as int) =~= s.take(trim_end(s).len() as int));
    }
}

/// Trimming twice is trimming once.
pub proof fn lemma_trim_idempotent(s: Seq<char>)
    ensures
        trim(trim(s)) == trim(s),
{
    let a = trim_start(s);
    let t = trim_end(a);
    lemma_trim_start_head(s);
    lemma_trim_end_prefix(a);
    if t.len() > 0 {
        assert(t[0] == a[0]);
    }
    assert(trim_start(t) == t);
    assert(trim_end(t) == t);
}

/// Replacing in two parts separately is replacing in the whole, when no
/// occurrence of `pat` straddles the boundary between them.
pub proof fn lemma_replace_concat(x: Seq<char>, y: Seq<char>, pat: Seq<char>, rep: Seq<char>)
    requires
        pat.len() > 0,
        forall|p: int|
            0 <= p < x.len() && x.len() < p + pat.len() ==> !pat.is_prefix_of(
                #[trigger] (x + y).skip(p),
            ),
    ensures
        replace(x + y, pat, rep) == replace(x, pat, rep) + replace(y, pat, rep),
    decreases x.len(),
{
    let s = x + y;
    if x.len() == 0 {
        assert(s =~= y);
        assert(replace(x, pat, rep) + replace(y, pat, rep) =~= replace(y, pat, rep));
    } else if pat.is_prefix_of(s) {
        if pat.len() > x.len() {
            assert(s.skip(0) =~= s);
            assert(false);
        }
        assert(pat.is_prefix_of(x)) by {
            assert(x.subrange(0, pat.len() as int) =~= s.subrange(0, pat.len() as int));
        }
        let x2 = x.skip(pat.len() as int);
        assert(s.skip(pat.len() as int) =~= x2 + y);
        assert forall|p: int| 0 <= p < x2.len() && x2.len() < p + pat.len() implies !pat.is_prefix_of(
            #[trigger] (x2 + y).skip(p),
        ) by {
            assert((x2 + y).skip(p) =~= s.skip(p + pat.len()));
        }
        lemma_replace_concat(x2, y, pat, rep);
        assert(rep + (replace(x2, pat, rep) + replace(y, pat, rep)) =~= (rep + replace(x2, pat, rep))
            + replace(y, pat, rep));
    } else {
        if pat.is_prefix_of(x) {
            assert(x.subrange(0, pat.len() as int) =~= s.subrange(0, pat.len() as int));
        }
        let x2 = x.drop_first();
        assert(s.drop_first() =~= x2 + y);
        assert forall|p: int| 0 <= p < x2.len() && x2.len() < p + pat.len() implies !pat.is_prefix_of(
            #[trigger] (x2 + y).skip(p),
        ) by {
            assert((x2 + y).skip(p) =~= s.skip(p + 1));
        }
        lemma_replace_concat(x2, y, pat, rep);
        assert(seq![x[0]] + (replace(x2, pat, rep) + replace(y, pat, rep)) =~= (seq![x[0]]
            + replace(x2, pat, rep)) + replace(y, pat, rep));
    }
}

/// Text without the first character of `pat` is left as it is.
pub proof fn lemma_replace_absent(x: Seq<char>, pat: Seq<char>, rep: Seq<char>)
    requires
        pat.len() > 0,
        forall|i: int| 0 <= i < x.len() ==> #[trigger] x[i] != pat[0],
    ensures
        replace(x, pat, rep) == x,
    decreases x.len(),
{
    if x.len() > 0 {
        assert(!pat.is_prefix_of(x)) by {
            if pat.is_prefix_of(x) {
                assert(x.subrange(0, pat.len() as int)[0] == x[0]);
            }
        }
        assert forall|i: int| 0 <= i < x.drop_first().len() implies #[trigger] x.drop_first()[i] != pat[0] by {
            assert(x.drop_first()[i] == x[i + 1]);
        }
        lemma_replace_absent(x.drop_first(), pat, rep);
        assert(seq![x[0]] + x.drop_first() =~= x);
    }
}

/// No occurrence of `pat` straddles the end of `x` when `y` starts with a
/// character that `pat` has nowhere after its first position.
pub proof fn lemma_no_straddle_right(x: Seq<char>, y: Seq<char>, pat: Seq<char>)
    requires
        y.len() > 0,
        forall|k: int| 0 < k < pat.len() ==> #[trigger] pat[k] != y[0],
    ensures
        forall|p: int|
            0 <= p < x.len() && x.len() < p + pat.len() ==> !pat.is_prefix_of(
                #[trigger] (x + y).skip(p),
            ),
{
    assert forall|p: int| 0 <= p < x.len() && x.len() < p + pat.len() implies !pat.is_prefix_of(
        #[trigger] (x + y).skip(p),
    ) by {
        let k = x.len() - p;
        if pat.is_prefix_of((x + y).skip(p)) {
            assert((x + y).skip(p).subrange(0, pat.len() as int)[k] == y[0]);
        }
    }
}

/// No occurrence of `pat` straddles the end of `x` when the characters at
/// the end of `x` where one could start differ from the first of `pat`.
pub proof fn lemma_no_straddle_left(x: Seq<char>, y: Seq<char>, pat: Seq<char>)
    requires
        forall|p: int| 0 <= p < x.len() && x.len() < p + pat.len() ==> #[trigger] x[p] != pat[0],
    ensures
        forall|p: int|
            0 <= p < x.len() && x.len() < p + pat.len() ==> !pat.is_prefix_of(
                #[trigger] (x + y).skip(p),
            ),
{
    assert forall|p: int| 0 <= p < x.len() && x.len() < p + pat.len() implies !pat.is_prefix_of(
        #[trigger] (x + y).skip(p),
    ) by {
        if pat.is_prefix_of((x + y).skip(p)) {
            assert((x + y).skip(p).subrange(0, pat.len() as int)[0] == x[p]);
        }
    }
}
/// `trim_start` drops a whitespace prefix.
pub proof fn lemma_trim_start_skip(s: Seq<char>) -> (a: int)
    ensures
        0 <= a <= s.len(),
        trim_start(s) == s.skip(a),
        forall|i: int| 0 <= i < a ==> is_white(#[trigger] s[i]),
    decreases s.len(),
{
    if s.len() > 0 && is_white(s[0]) {
        let a1 = lemma_trim_start_skip(s.drop_first());
        assert(s.drop_first().skip(a1) =~= s.skip(a1 + 1));
        assert forall|i: int| 0 <= i < a1 + 1 implies is_white(#[trigger] s[i]) by {
            if i > 0 {
                assert(s[i] == s.drop_first()[i - 1]);
            }
        }
        a1 + 1
    } else {
        assert(s.skip(0) =~= s);
        0
    }
}

/// `trim_end` drops a whitespace suffix.
pub proof fn lemma_trim_end_take(s: Seq<char>) -> (b: int)
    ensures
        0 <= b <= s.len(),
        trim_end(s) == s.take(b),
        forall|i: int| b <= i < s.len() ==> is_white(#[trigger] s[i]),
    decreases s.len(),
{
    if s.len() > 0 && is_white(s.last()) {
        let b1 = lemma_trim_end_take(s.drop_last());
        assert(s.drop_last().take(b1) =~= s.take(b1));
        assert forall|i: int| b1 <= i < s.len() implies is_white(#[trigger] s[i]) by {
            if i < s.len() - 1 {
                assert(s[i] == s.drop_last()[i]);
            }
        }
        b1
    } else {
        assert(s.take(s.len() as int) =~= s);
        s.len() as int
    }
}


/// `x` holds no `c`.
pub open spec fn free_of(x: Seq<char>, c: char) -> bool {
    forall|i: int| 0 <= i < x.len() ==> #[trigger] x[i] != c
}

/// The pieces of `ls` with `sep` between each two of them.
pub open spec fn join(ls: Seq<Seq<char>>, sep: char) -> Seq<char>
    decreases ls.len(),
{
    if ls.len() <= 1 {
        if ls.len() == 1 { ls[0] } else { Seq::empty() }
    } else {
        ls[0] + seq![sep] + join(ls.drop_first(), sep)
    }
}

/// Trimming keeps a character out.
pub proof fn lemma_trim_free(x: Seq<char>, c: char)
    requires
        free_of(x, c),
    ensures
        free_of(trim(x), c),
{
    let a = lemma_trim_start_skip(x);
    let b = lemma_trim_end_take(x.skip(a));
    assert forall|i: int| 0 <= i < trim(x).len() implies #[trigger] trim(x)[i] != c by {
        assert(trim(x)[i] == x[a + i]);
    }
}

/// `trim_end_char` keeps a prefix.
pub proof fn lemma_trim_end_char_prefix(x: Seq<char>, c: char)
    ensures
        trim_end_char(x, c).len() <= x.len(),
        trim_end_char(x, c) =~= x.take(trim_end_char(x, c).len() as int),
    decreases x.len(),
{
    if x.len() > 0 && x.last() == c {
        lemma_trim_end_char_prefix(x.drop_last(), c);
        assert(x.drop_last().take(trim_end_char(x, c).len() as int) =~= x.take(
            trim_end_char(x, c).len() as int,
        ));
    }
}

/// Replacing keeps out a character that the text and the replacement lack,
/// and removes one that the pattern is made of alone.
pub proof fn lemma_replace_free(x: Seq<char>, pat: Seq<char>, rep: Seq<char>, k: char)
    requires
        pat.len() > 0,
        free_of(rep, k),
        free_of(x, k) || pat == seq![k],
    ensures
        free_of(replace(x, pat, rep), k),
    decreases x.len(),
{
    if x.len() > 0 {
        if pat.is_prefix_of(x) {
            let x2 = x.skip(pat.len() as int);
            assert(free_of(x, k) ==> free_of(x2, k)) by {
                if free_of(x, k) {
                    assert forall|i: int| 0 <= i < x2.len() implies #[trigger] x2[i] != k by {
                        assert(x2[i] == x[i + pat.len()]);
                    }
                }
            }
            lemma_replace_free(x2, pat, rep, k);
            let r = replace(x, pat, rep);
            assert forall|i: int| 0 <= i < r.len() implies #[trigger] r[i] != k by {
                if i >= rep.len() {
                    assert(r[i] == replace(x2, pat, rep)[i - rep.len()]);
                }
            }
        } else {
            let x2 = x.drop_first();
            assert(free_of(x, k) ==> free_of(x2, k)) by {
                if free_of(x, k) {
                    assert forall|i: int| 0 <= i < x2.len() implies #[trigger] x2[i] != k by {
                        assert(x2[i] == x[i + 1]);
                    }
                }
            }
            if pat == seq![k] {
                assert(x[0] != k) by {
                    if x[0] == k {
                        assert(x.subrange(0, 1) =~= seq![k]);
                    }
                }
            }
            lemma_replace_free(x2, pat, rep, k);
            let r = replace(x, pat, rep);
            assert forall|i: int| 0 <= i < r.len() implies #[trigger] r[i] != k by {
                if i >= 1 {
                    assert(r[i] == replace(x2, pat, rep)[i - 1]);
                }
            }
        }
    }
}

/// Text without the separator is one piece.
pub proof fn lemma_split_single(x: Seq<char>, sep: char)
    requires
        free_of(x, sep),
    ensures
        split(x, sep) == seq![x],
    decreases x.len(),
{
    if x.len() > 0 {
        assert(free_of(x.drop_last(), sep)) by {
            assert forall|i: int| 0 <= i < x.drop_last().len() implies #[trigger] x.drop_last()[i] != sep by {
                assert(x.drop_last()[i] == x[i]);
            }
        }
        lemma_split_single(x.drop_last(), sep);
        assert(x.drop_last().push(x.last()) =~= x);
        assert(split(x, sep) =~= seq![x]);
    } else {
        assert(x =~= Seq::<char>::empty());
    }
}

/// Splitting at a separator splits the two sides.
pub proof fn lemma_split_concat(a: Seq<char>, b: Seq<char>, sep: char)
    ensures
        split(a + seq![sep] + b, sep) == split(a, sep) + split(b, sep),
    decreases b.len(),
{
    let c = a + seq![sep] + b;
    if b.len() == 0 {
        assert(c.drop_last() =~= a);
        assert(split(a, sep).push(Seq::<char>::empty()) =~= split(a, sep) + split(b, sep));
    } else {
        assert(c.drop_last() =~= a + seq![sep] + b.drop_last());
        lemma_split_concat(a, b.drop_last(), sep);
        lemma_split_nonempty(b.drop_last(), sep);
        lemma_split_nonempty(a, sep);
        let pa = split(a, sep);
        let pb = split(b.drop_last(), sep);
        if b.last() == sep {
            assert((pa + pb).push(Seq::<char>::empty()) =~= pa + pb.push(Seq::<char>::empty()));
        } else {
            assert((pa + pb).update((pa + pb).len() - 1, (pa + pb).last().push(b.last())) =~= pa
                + pb.update(pb.len() - 1, pb.last().push(b.last())));
        }
    }
}

/// Splitting joined pieces gives the pieces back.
pub proof fn lemma_split_join(ls: Seq<Seq<char>>, sep: char)
    requires
        ls.len() >= 1,
        forall|i: int| 0 <= i < ls.len() ==> free_of(#[trigger] ls[i], sep),
    ensures
        split(join(ls, sep), sep) == ls,
    decreases ls.len(),
{
    lemma_split_single(ls[0], sep);
    if ls.len() > 1 {
        let rest = ls.drop_first();
        assert forall|i: int| 0 <= i < rest.len() implies free_of(#[trigger] rest[i], sep) by {
            assert(rest[i] == ls[i + 1]);
        }
        lemma_split_join(rest, sep);
        lemma_split_concat(ls[0], join(rest, sep), sep);
        assert(seq![ls[0]] + rest =~= ls);
    } else {
        assert(seq![ls[0]] =~= ls);
    }
}

/// Joining two lists joins their joins.
pub proof fn lemma_join_append(ls: Seq<Seq<char>>, ms: Seq<Seq<char>>, sep: char)
    requires
        ls.len() >= 1,
        ms.len() >= 1,
    ensures
        join(ls + ms, sep) == join(ls, sep) + seq![sep] + join(ms, sep),
    decreases ls.len(),
{
    let lm = ls + ms;
    if ls.len() == 1 {
        assert(lm.drop_first() =~= ms);
    } else {
        assert(lm.drop_first() =~= ls.drop_first() + ms);
        lemma_join_append(ls.drop_first(), ms, sep);
        assert(ls[0] + seq![sep] + (join(ls.drop_first(), sep) + seq![sep] + join(ms, sep)) =~= (
        ls[0] + seq![sep] + join(ls.drop_first(), sep)) + seq![sep] + join(ms, sep));
    }
}

/// Leading whitespace ends inside `a` when `a` holds a non-whitespace character.
pub proof fn lemma_trim_start_concat(a: Seq<char>, b: Seq<char>, k: int)
    requires
        0 <= k < a.len(),
        !is_white(a[k]),
    ensures
        trim_start(a + b) == trim_start(a) + b,
    decreases a.len(),
{
    if is_white(a[0]) {
        assert((a + b).drop_first() =~= a.drop_first() + b);
        lemma_trim_start_concat(a.drop_first(), b, k - 1);
    }
}

/// Trimming the start twice is trimming it once.
pub proof fn lemma_trim_start_idempotent(x: Seq<char>)
    ensures
        trim_start(trim_start(x)) == trim_start(x),
{
    lemma_trim_start_head(x);
}

/// Every piece of a split holds no separator, nor a character the text lacks.
pub proof fn lemma_split_pieces_free(s: Seq<char>, sep: char, k: char)
    ensures
        forall|i: int| 0 <= i < split(s, sep).len() ==> free_of(#[trigger] split(s, sep)[i], sep),
        free_of(s, k) ==> forall|i: int| 0 <= i < split(s, sep).len() ==> free_of(#[trigger] split(s, sep)[i], k),
    decreases s.len(),
{
    if s.len() > 0 {
        let p = s.drop_last();
        lemma_split_pieces_free(p, sep, k);
        lemma_split_nonempty(p, sep);
        if free_of(s, k) {
            assert forall|i: int| 0 <= i < p.len() implies #[trigger] p[i] != k by {
                assert(p[i] == s[i]);
            }
        }
        let prev = split(p, sep);
        if s.last() != sep {
            let last = prev.last().push(s.last());
            assert forall|i: int| 0 <= i < last.len() implies #[trigger] last[i] != sep by {
                if i < prev.last().len() {
                    assert(last[i] == prev.last()[i]);
                }
            }
            if free_of(s, k) {
                assert forall|i: int| 0 <= i < last.len() implies #[trigger] last[i] != k by {
                    if i < prev.last().len() {
                        assert(last[i] == prev.last()[i]);
                    } else {
                        assert(last[i] == s[s.len() - 1]);
                    }
                }
            }
        }
    }
}

/// The last character of joined pieces is that of the last piece.
pub proof fn lemma_join_last(ls: Seq<Seq<char>>, sep: char)
    requires
        ls.len() >= 1,
        ls.last().len() > 0,
    ensures
        join(ls, sep).len() > 0,
        join(ls, sep).last() == ls.last().last(),
    decreases ls.len(),
{
    if ls.len() > 1 {
        assert(ls.drop_first().last() == ls.last());
        lemma_join_last(ls.drop_first(), sep);
    }
}

/// Joining pieces without `k` by a separator other than `k` gives no `k`.
pub proof fn lemma_join_free(ls: Seq<Seq<char>>, sep: char, k: char)
    requires
        sep != k,
        forall|i: int| 0 <= i < ls.len() ==> free_of(#[trigger] ls[i], k),
    ensures
        free_of(join(ls, sep), k),
    decreases ls.len(),
{
    if ls.len() > 1 {
        let rest = ls.drop_first();
        assert forall|i: int| 0 <= i < rest.len() implies free_of(#[trigger] rest[i], k) by {
            assert(rest[i] == ls[i + 1]);
        }
        lemma_join_free(rest, sep, k);
        let j = join(ls, sep);
        let a = ls[0];
        assert(free_of(a, k));
        assert forall|i: int| 0 <= i < j.len() implies #[trigger] j[i] != k by {
            if i < a.len() {
                assert(j[i] == a[i]);
            } else if i > a.len() {
                assert(j[i] == join(rest, sep)[i - a.len() - 1]);
            }
        }
    } else if ls.len() == 1 {
        assert(free_of(ls[0], k));
    }
}

/// Text made of two parts without `k` holds no `k`.
pub proof fn lemma_concat_free(a: Seq<char>, b: Seq<char>, k: char)
    requires
        free_of(a, k),
        free_of(b, k),
    ensures
        free_of(a + b, k),
{
    assert forall|i: int| 0 <= i < (a + b).len() implies #[trigger] (a + b)[i] != k by {
        if i >= a.len() {
            assert((a + b)[i] == b[i - a.len()]);
        }
    }
}

/// No `a` in `x` is directly followed by `b`.
pub open spec fn pair_free(x: Seq<char>, a: char, b: char) -> bool {
    forall|i: int| 0 <= i < x.len() - 1 ==> !(#[trigger] x[i] == a && x[i + 1] == b)
}

/// No `/` in `x` is directly followed by `*`: `x` opens no comment.
pub open spec fn no_comment_opening(x: Seq<char>) -> bool {
    pair_free(x, '/', '*')
}

/// A part of a text without the pair holds none either.
pub proof fn lemma_pair_free_sub(x: Seq<char>, i: int, j: int, a: char, b: char)
    requires
        pair_free(x, a, b),
        0 <= i <= j <= x.len(),
    ensures
        pair_free(x.subrange(i, j), a, b),
{
    let y = x.subrange(i, j);
    assert forall|k: int| 0 <= k < y.len() - 1 implies !(#[trigger] y[k] == a && y[k + 1] == b) by {
        assert(y[k] == x[i + k]);
        assert(y[k + 1] == x[i + k + 1]);
    }
}

/// Two texts without the pair, joined where the pair does not form, hold
/// none.
pub proof fn lemma_pair_free_concat(x: Seq<char>, y: Seq<char>, a: char, b: char)
    requires
        pair_free(x, a, b),
        pair_free(y, a, b),
        x.len() == 0 || y.len() == 0 || !(x.last() == a && y[0] == b),
    ensures
        pair_free(x + y, a, b),
{
    let z = x + y;
    assert forall|k: int| 0 <= k < z.len() - 1 implies !(#[trigger] z[k] == a && z[k + 1] == b) by {
        if k + 1 < x.len() {
            assert(z[k] == x[k] && z[k + 1] == x[k + 1]);
        } else if k >= x.len() {
            assert(z[k] == y[k - x.len()] && z[k + 1] == y[k + 1 - x.len()]);
        } else {
            assert(z[k] == x.last() && z[k + 1] == y[0]);
        }
    }
}

/// Trimming keeps the pair out.
pub proof fn lemma_trim_pair_free(x: Seq<char>, a: char, b: char)
    requires
        pair_free(x, a, b),
    ensures
        pair_free(trim(x), a, b),
{
    let s = lemma_trim_start_skip(x);
    let e = lemma_trim_end_take(x.skip(s));
    assert(trim(x) =~= x.subrange(s, s + e));
    lemma_pair_free_sub(x, s, s + e, a, b);
}

/// Replacing a single character by a single character replaces it in place.
pub proof fn lemma_replace_char(x: Seq<char>, c: char, d: char)
    ensures
        replace(x, seq![c], seq![d]).len() == x.len(),
        forall|i: int| 0 <= i < x.len() ==> #[trigger] replace(x, seq![c], seq![d])[i] == if x[i] == c {
            d
        } else {
            x[i]
        },
    decreases x.len(),
{
    if x.len() > 0 {
        let pat = seq![c];
        let r = replace(x, pat, seq![d]);
        if pat.is_prefix_of(x) {
            assert(x.skip(1) =~= x.drop_first());
            assert(x[0] == pat[0]);
        } else {
            assert(x[0] != c) by {
                if x[0] == c {
                    assert(x.subrange(0, 1) =~= pat);
                }
            }
        }
        lemma_replace_char(x.drop_first(), c, d);
        assert forall|i: int| 0 <= i < x.len() implies #[trigger] r[i] == if x[i] == c {
            d
        } else {
            x[i]
        } by {
            if i > 0 {
                assert(x[i] == x.drop_first()[i - 1]);
                assert(r[i] == replace(x.drop_first(), pat, seq![d])[i - 1]);
            }
        }
    }
}

/// Every piece of a split of a text without the pair holds none, and the last
/// piece ends the text.
pub proof fn lemma_split_pieces_pair_free(s: Seq<char>, sep: char, a: char, b: char)
    requires
        pair_free(s, a, b),
    ensures
        forall|i: int| 0 <= i < split(s, sep).len() ==> pair_free(#[trigger] split(s, sep)[i], a, b),
        split(s, sep).last().len() <= s.len(),
        split(s, sep).last() =~= s.skip(s.len() - split(s, sep).last().len()),
    decreases s.len(),
{
    lemma_split_nonempty(s, sep);
    if s.len() > 0 {
        let p = s.drop_last();
        lemma_pair_free_sub(s, 0, s.len() - 1, a, b);
        assert(p =~= s.subrange(0, s.len() - 1));
        lemma_split_pieces_pair_free(p, sep, a, b);
        lemma_split_nonempty(p, sep);
        let prev = split(p, sep);
        if s.last() != sep {
            let last = prev.last().push(s.last());
            assert(last =~= s.skip(s.len() - last.len()));
            lemma_pair_free_sub(s, s.len() - last.len(), s.len() as int, a, b);
            assert forall|i: int| 0 <= i < split(s, sep).len() implies pair_free(#[trigger] split(s, sep)[i], a, b) by {
                if i < prev.len() - 1 {
                    assert(split(s, sep)[i] == prev[i]);
                }
            }
        } else {
            assert forall|i: int| 0 <= i < split(s, sep).len() implies pair_free(#[trigger] split(s, sep)[i], a, b) by {
                if i < prev.len() {
                    assert(split(s, sep)[i] == prev[i]);
                }
            }
        }
    }
}

/// Trailing whitespace starts inside `b` when `b` holds a non-whitespace
/// character.
pub proof fn lemma_trim_end_concat(a: Seq<char>, b: Seq<char>, k: int)
    requires
        0 <= k < b.len(),
        !is_white(b[k]),
    ensures
        trim_end(a + b) == a + trim_end(b),
    decreases b.len(),
{
    if is_white(b.last()) {
        assert((a + b).drop_last() =~= a + b.drop_last());
        lemma_trim_end_concat(a, b.drop_last(), k);
    }
}

} // verus!
