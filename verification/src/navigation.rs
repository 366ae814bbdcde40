//! What the keypad markup offers a visitor: every digit sequence up to the
//! passcode's length has its anchor, and right behind it the keypad that
//! continues from there.
use vstd::prelude::*;

use crate::keypad::{
    anchor_html, anchor_class, button_html, buttons, keypad_css, keypad_html, layer_html, layer_open, only_keys, subtrees, valid_passcode,
    theme_css, ThemeView, digit_value, is_digit, cell_rule, row_rules, rows_rules, color_content, pattern_fits, border_rule, CSS_EPILOGUE, CSS_PRELUDE, CSS_SECRET_RULE, HTML_EPILOGUE, HTML_PRELUDE,
};
use crate::text::{
    decimal, digit_char, free_of, is_white, lemma_concat_free, lemma_no_straddle_left, lemma_trim_end_take, lemma_trim_start_skip, lemma_no_straddle_right, lemma_replace_absent,
    lemma_replace_concat, replace, trim, trim_end, trim_start,
};

verus! {

/// `t` occurs in `s`.
pub open spec fn contains(s: Seq<char>, t: Seq<char>) -> bool {
    exists|i: int| 0 <= i <= s.len() - t.len() && #[trigger] s.subrange(i, i + t.len()) == t
}

/// An occurrence in `a` is one in `a + b` and in `c + a`.
pub proof fn lemma_contains_concat(a: Seq<char>, t: Seq<char>, b: Seq<char>, c: Seq<char>)
    requires
        contains(a, t),
    ensures
        contains(a + b, t),
        contains(c + a, t),
{
    let i = choose|i: int| 0 <= i <= a.len() - t.len() && #[trigger] a.subrange(i, i + t.len()) == t;
    assert((a + b).subrange(i, i + t.len()) =~= a.subrange(i, i + t.len()));
    assert((c + a).subrange(c.len() + i, c.len() + i + t.len()) =~= a.subrange(i, i + t.len()));
}

/// Every sequence occurs in itself.
pub proof fn lemma_contains_self(s: Seq<char>)
    ensures
        contains(s, s),
{
    let z: int = 0;
    assert(s.subrange(z, z + s.len()) =~= s);
}

/// What occurs in an occurrence occurs in the whole.
pub proof fn lemma_contains_trans(s: Seq<char>, t: Seq<char>, u: Seq<char>)
    requires
        contains(s, t),
        contains(t, u),
    ensures
        contains(s, u),
{
    let i = choose|i: int| 0 <= i <= s.len() - t.len() && #[trigger] s.subrange(i, i + t.len()) == t;
    let j = choose|j: int| 0 <= j <= t.len() - u.len() && #[trigger] t.subrange(j, j + u.len()) == u;
    assert(s.subrange(i + j, i + j + u.len()) =~= t.subrange(j, j + u.len()));
}

/// The pieces for the first `k` digits all occur in `subtrees`.
proof fn lemma_subtrees_contains(depth: nat, l: Seq<char>, k: nat, d: nat)
    requires
        l.len() < depth,
        1 <= d <= k <= 9,
    ensures
        contains(
            subtrees(depth, l, k),
            anchor_html(depth, l.push(digit_char(d))) + layer_html(depth, l.push(digit_char(d))),
        ),
    decreases k,
{
    let n = l.push(digit_char(k));
    let piece = anchor_html(depth, n) + layer_html(depth, n);
    let prev = subtrees(depth, l, (k - 1) as nat);
    assert(subtrees(depth, l, k) =~= prev + piece);
    if d == k {
        lemma_contains_self(piece);
        lemma_contains_concat(piece, piece, Seq::empty(), prev);
        assert(prev + piece =~= prev + (piece + Seq::<char>::empty()));
    } else {
        lemma_subtrees_contains(depth, l, (k - 1) as nat, d);
        lemma_contains_concat(prev, anchor_html(depth, l.push(digit_char(d))) + layer_html(depth, l.push(digit_char(d))), piece, Seq::empty());
    }
}

/// The value of a keypad digit.
spec fn key_value(c: char) -> nat {
    (c as int - '0' as int) as nat
}

/// Every sequence `w` of one to `depth` keypad digits has its anchor in the
/// keypad markup, and right behind it what continues from there: the keypad
/// shown after `w` while `w` is shorter than the passcode, nothing once it
/// is as long.
pub proof fn lemma_keypad_reaches(depth: nat, w: Seq<char>)
    requires
        1 <= w.len() <= depth,
        only_keys(w),
    ensures
        contains(layer_html(depth, Seq::empty()), anchor_html(depth, w) + layer_html(depth, w)),
    decreases w.len(),
{
    let v = w.drop_last();
    let c = w.last();
    let d = key_value(c);
    assert(1 <= d <= 9);
    assert(digit_char(d) == c);
    assert(v.push(c) =~= w);
    lemma_subtrees_contains(depth, v, 9, d);
    let lv = layer_html(depth, v);
    let head = layer_open(v) + buttons(v, 9) + "</p>"@;
    assert(lv =~= head + subtrees(depth, v, 9));
    lemma_contains_concat(subtrees(depth, v, 9), anchor_html(depth, w) + layer_html(depth, w), Seq::empty(), head);
    assert(subtrees(depth, v, 9) + Seq::<char>::empty() =~= subtrees(depth, v, 9));
    if v.len() == 0 {
        assert(v =~= Seq::<char>::empty());
    } else {
        assert(only_keys(v)) by {
            assert forall|i: int| 0 <= i < v.len() implies '1' <= #[trigger] v[i] <= '9' by {
                assert(v[i] == w[i]);
            }
        }
        lemma_keypad_reaches(depth, v);
        let av = anchor_html(depth, v);
        lemma_contains_self(lv);
        lemma_contains_concat(lv, lv, Seq::empty(), av);
        assert(av + lv =~= av + (lv + Seq::<char>::empty()));
        lemma_contains_trans(layer_html(depth, Seq::empty()), av + lv, lv);
        lemma_contains_trans(layer_html(depth, Seq::empty()), lv, anchor_html(depth, w) + layer_html(depth, w));
    }
}

/// A piece that starts and ends with non-whitespace survives trimming.
pub proof fn lemma_contains_trim(s: Seq<char>, t: Seq<char>)
    requires
        contains(s, t),
        t.len() > 0,
        !is_white(t[0]),
        !is_white(t.last()),
    ensures
        contains(trim(s), t),
{
    let i = choose|i: int| 0 <= i <= s.len() - t.len() && #[trigger] s.subrange(i, i + t.len()) == t;
    let a = lemma_trim_start_skip(s);
    let u = s.skip(a);
    let b = lemma_trim_end_take(u);
    assert(s[i] == t[0]);
    assert(s[i + t.len() - 1] == t.last());
    if i < a {
        assert(is_white(s[i]));
    }
    if i + t.len() - 1 - a >= b {
        assert(is_white(u[i + t.len() - 1 - a]));
    }
    let j = i - a;
    assert(trim(s) == u.take(b));
    assert(u.take(b).subrange(j, j + t.len()) =~= s.subrange(i, i + t.len()));
}

/// A non-empty keypad ends with `>`.
proof fn lemma_layer_ends(depth: nat, l: Seq<char>)
    ensures
        layer_html(depth, l).len() == 0 || layer_html(depth, l).last() == '>',
    decreases depth - l.len(),
{
    if l.len() < depth {
        let n = l.push(digit_char(9));
        lemma_layer_ends(depth, n);
        reveal_strlit("\"></a></p>");
        let tail = anchor_html(depth, n) + layer_html(depth, n);
        assert(layer_html(depth, l) == layer_open(l) + buttons(l, 9) + "</p>"@ + subtrees(depth, l, 9));
        assert(subtrees(depth, l, 9) == subtrees(depth, l, 8) + anchor_html(depth, n) + layer_html(depth, n));
        if layer_html(depth, n).len() == 0 {
            assert(anchor_html(depth, n).last() == '>');
            assert(layer_html(depth, l).last() == anchor_html(depth, n).last());
        } else {
            assert(layer_html(depth, l).last() == layer_html(depth, n).last());
        }
    }
}

/// In the page that `generate_keypad_html` returns for a passcode of `depth`
/// digits, every sequence `w` of one to `depth` keypad digits has its anchor
/// `c{w}`, of class `kpfin` exactly when `w` is as long as the passcode, and
/// right behind it the keypad that continues from `w`.
pub proof fn lemma_page_reaches(depth: nat, w: Seq<char>)
    requires
        1 <= w.len() <= depth,
        only_keys(w),
    ensures
        contains(keypad_html(depth), anchor_html(depth, w) + layer_html(depth, w)),
{
    let t = anchor_html(depth, w) + layer_html(depth, w);
    let body = layer_html(depth, Seq::empty());
    lemma_keypad_reaches(depth, w);
    lemma_contains_concat(body, t, HTML_EPILOGUE@, HTML_PRELUDE@);
    lemma_contains_concat(body + HTML_EPILOGUE@, t, Seq::empty(), HTML_PRELUDE@);
    assert(HTML_PRELUDE@ + (body + HTML_EPILOGUE@) =~= HTML_PRELUDE@ + body + HTML_EPILOGUE@);
    reveal_strlit("<p class=\"invap\"><a class=\"inva ");
    reveal_strlit("\"></a></p>");
    assert(t[0] == '<');
    lemma_layer_ends(depth, w);
    if layer_html(depth, w).len() == 0 {
        assert(t.last() == anchor_html(depth, w).last());
    } else {
        assert(t.last() == layer_html(depth, w).last());
    }
    lemma_contains_trim(HTML_PRELUDE@ + body + HTML_EPILOGUE@, t);
}

/// The rule that shows the secret once the anchor of `passcode` is targeted.
pub open spec fn secret_rule(passcode: Seq<char>) -> Seq<char> {
    ".kpmcon:has(#c"@ + passcode + ":target)~.secret {\n    display: block;\n}"@
}

/// The style sheet that `generate_keypad_css` returns for `passcode` holds
/// the rule that shows the secret, keyed on the passcode's own anchor
/// `#c{passcode}`: entering the passcode reveals the secret.
pub proof fn lemma_css_reveals_on_passcode(passcode: Seq<char>, t: ThemeView)
    ensures
        contains(keypad_css(passcode, t), secret_rule(passcode)),
{
    let pat = "***"@;
    let a = ".kpmcon:has(#c"@;
    let c = ":target)~.secret {\n    display: block;\n}"@;
    reveal_strlit("***");
    reveal_strlit(".kpmcon:has(#c");
    reveal_strlit(":target)~.secret {\n    display: block;\n}");
    reveal_strlit(".kpmcon:has(#c***:target)~.secret {\n    display: block;\n}");
    assert(CSS_SECRET_RULE@ =~= a + pat + c);
    let w = CSS_EPILOGUE@ + theme_css(t);
    let s = CSS_PRELUDE@ + (a + (pat + (c + w)));
    assert(s =~= CSS_PRELUDE@ + CSS_SECRET_RULE@ + CSS_EPILOGUE@ + theme_css(t));
    // The secret rule starts right after the fixed rules.
    lemma_no_straddle_right(CSS_PRELUDE@, a + (pat + (c + w)), pat);
    lemma_replace_concat(CSS_PRELUDE@, a + (pat + (c + w)), pat, passcode);
    // Its selector up to the placeholder holds no `*`.
    lemma_no_straddle_left(a, pat + (c + w), pat);
    lemma_replace_concat(a, pat + (c + w), pat, passcode);
    lemma_replace_absent(a, pat, passcode);
    // The placeholder itself.
    let r = pat + (c + w);
    assert(r.skip(3) =~= c + w);
    assert(pat.is_prefix_of(r)) by {
        assert(r.subrange(0, 3) =~= pat);
    }
    assert(replace(r, pat, passcode) == passcode + replace(c + w, pat, passcode));
    // The rest of the rule holds no `*` either.
    lemma_no_straddle_left(c, w, pat);
    lemma_replace_concat(c, w, pat, passcode);
    lemma_replace_absent(c, pat, passcode);
    let head = replace(CSS_PRELUDE@, pat, passcode);
    let tail = replace(w, pat, passcode);
    let rule = secret_rule(passcode);
    assert(replace(s, pat, passcode) =~= head + rule + tail);
    let i: int = head.len() as int;
    assert((head + rule + tail).subrange(i, i + rule.len()) =~= rule);
}

/// The keypad markup depends on the passcode's length alone: two passcodes
/// of one length give the same markup, so it tells nothing of the digits.
pub proof fn lemma_markup_hides_digits(p: Seq<char>, q: Seq<char>)
    requires
        p.len() == q.len(),
    ensures
        keypad_html(p.len()) == keypad_html(q.len()),
{
}

/// The page that `generate_keypad_html` returns for a passcode of at least
/// one digit holds the first keypad, the one shown before any digit is
/// entered, together with everything reachable from it.
pub proof fn lemma_page_starts(depth: nat)
    requires
        depth >= 1,
    ensures
        contains(keypad_html(depth), layer_html(depth, Seq::empty())),
{
    let body = layer_html(depth, Seq::empty());
    lemma_contains_self(body);
    lemma_contains_concat(body, body, HTML_EPILOGUE@, HTML_PRELUDE@);
    lemma_contains_concat(body + HTML_EPILOGUE@, body, Seq::empty(), HTML_PRELUDE@);
    assert(HTML_PRELUDE@ + (body + HTML_EPILOGUE@) =~= HTML_PRELUDE@ + body + HTML_EPILOGUE@);
    reveal_strlit("<p class=\"kp kp_");
    assert(body == layer_open(Seq::empty()) + buttons(Seq::empty(), 9) + "</p>"@ + subtrees(depth, Seq::empty(), 9));
    assert(body[0] == '<');
    lemma_layer_ends(depth, Seq::empty());
    lemma_contains_trim(HTML_PRELUDE@ + body + HTML_EPILOGUE@, body);
}

/// The number of places where `t` occurs in `s` (overlapping ones counted).
pub open spec fn count(s: Seq<char>, t: Seq<char>) -> nat
    decreases s.len(),
{
    if t.len() == 0 || s.len() < t.len() {
        0
    } else {
        (if t.is_prefix_of(s) {
            1nat
        } else {
            0nat
        }) + count(s.drop_first(), t)
    }
}

/// No occurrence of `t` in `x + y` straddles the end of `x`.
pub open spec fn no_straddle(x: Seq<char>, y: Seq<char>, t: Seq<char>) -> bool {
    forall|p: int|
        0 <= p < x.len() && x.len() < p + t.len() ==> !t.is_prefix_of(#[trigger] (x + y).skip(p))
}

/// Occurrences in two parts add up when none straddles the boundary.
pub proof fn lemma_count_concat(x: Seq<char>, y: Seq<char>, t: Seq<char>)
    requires
        t.len() > 0,
        no_straddle(x, y, t),
    ensures
        count(x + y, t) == count(x, t) + count(y, t),
    decreases x.len(),
{
    let s = x + y;
    if x.len() == 0 {
        assert(s =~= y);
    } else {
        let x2 = x.drop_first();
        assert(s.drop_first() =~= x2 + y);
        assert forall|p: int| 0 <= p < x2.len() && x2.len() < p + t.len() implies !t.is_prefix_of(
            #[trigger] (x2 + y).skip(p),
        ) by {
            assert((x2 + y).skip(p) =~= s.skip(p + 1));
        }
        lemma_count_concat(x2, y, t);
        if s.len() >= t.len() {
            if x.len() >= t.len() {
                assert(t.is_prefix_of(s) == t.is_prefix_of(x)) by {
                    assert(s.subrange(0, t.len() as int) =~= x.subrange(0, t.len() as int));
                }
            } else {
                assert(s.skip(0) =~= s);
                assert(!t.is_prefix_of(s));
                assert(count(x2, t) == 0);
            }
        } else {
            assert(count(x2, t) == 0);
            assert(count(y, t) == 0);
        }
    }
}

/// No occurrence straddles a boundary whose left character `t` lacks.
pub proof fn lemma_no_straddle_at_last(x: Seq<char>, y: Seq<char>, t: Seq<char>)
    requires
        x.len() > 0,
        free_of(t, x.last()),
    ensures
        no_straddle(x, y, t),
{
    assert forall|p: int| 0 <= p < x.len() && x.len() < p + t.len() implies !t.is_prefix_of(
        #[trigger] (x + y).skip(p),
    ) by {
        if t.is_prefix_of((x + y).skip(p)) {
            assert((x + y).skip(p).subrange(0, t.len() as int)[x.len() - 1 - p] == x.last());
        }
    }
}

/// No occurrence straddles a boundary whose right character `t` lacks.
pub proof fn lemma_no_straddle_at_first(x: Seq<char>, y: Seq<char>, t: Seq<char>)
    requires
        y.len() > 0,
        free_of(t, y[0]),
    ensures
        no_straddle(x, y, t),
{
    assert forall|p: int| 0 <= p < x.len() && x.len() < p + t.len() implies !t.is_prefix_of(
        #[trigger] (x + y).skip(p),
    ) by {
        if t.is_prefix_of((x + y).skip(p)) {
            assert((x + y).skip(p).subrange(0, t.len() as int)[x.len() - p] == y[0]);
        }
    }
}

/// Text without one of the characters of `t` holds no occurrence of it.
pub proof fn lemma_count_absent(s: Seq<char>, t: Seq<char>, j: int)
    requires
        0 <= j < t.len(),
        free_of(s, t[j]),
    ensures
        count(s, t) == 0,
    decreases s.len(),
{
    if s.len() >= t.len() {
        if t.is_prefix_of(s) {
            assert(s.subrange(0, t.len() as int)[j] == s[j]);
        }
        assert(free_of(s.drop_first(), t[j])) by {
            assert forall|i: int| 0 <= i < s.drop_first().len() implies #[trigger] s.drop_first()[i] != t[j] by {
                assert(s.drop_first()[i] == s[i + 1]);
            }
        }
        lemma_count_absent(s.drop_first(), t, j);
    }
}

/// Text where two adjacent characters of `t` never stand side by side holds
/// no occurrence of it.
pub proof fn lemma_count_no_pair(s: Seq<char>, t: Seq<char>, j: int)
    requires
        0 <= j,
        j + 1 < t.len(),
        forall|p: int| 0 <= p < s.len() - 1 ==> !(#[trigger] s[p] == t[j] && s[p + 1] == t[j + 1]),
    ensures
        count(s, t) == 0,
    decreases s.len(),
{
    if s.len() >= t.len() {
        if t.is_prefix_of(s) {
            assert(s.subrange(0, t.len() as int)[j] == s[j]);
            assert(s.subrange(0, t.len() as int)[j + 1] == s[j + 1]);
        }
        let s2 = s.drop_first();
        assert forall|p: int| 0 <= p < s2.len() - 1 implies !(#[trigger] s2[p] == t[j] && s2[p + 1] == t[j + 1]) by {
            assert(s2[p] == s[p + 1]);
            assert(s2[p + 1] == s[p + 2]);
        }
        lemma_count_no_pair(s2, t, j);
    }
}

/// Trimming keeps every occurrence of a text without whitespace.
pub proof fn lemma_count_trim(s: Seq<char>, t: Seq<char>)
    requires
        t.len() > 0,
        forall|j: int| 0 <= j < t.len() ==> !is_white(#[trigger] t[j]),
    ensures
        count(trim(s), t) == count(s, t),
{
    lemma_count_trim_start(s, t);
    lemma_count_trim_end(trim_start(s), t);
}

proof fn lemma_count_trim_start(s: Seq<char>, t: Seq<char>)
    requires
        t.len() > 0,
        forall|j: int| 0 <= j < t.len() ==> !is_white(#[trigger] t[j]),
    ensures
        count(trim_start(s), t) == count(s, t),
    decreases s.len(),
{
    if s.len() > 0 && is_white(s[0]) {
        lemma_count_trim_start(s.drop_first(), t);
        if s.len() >= t.len() && t.is_prefix_of(s) {
            assert(s.subrange(0, t.len() as int)[0] == s[0]);
        }
        if s.len() < t.len() {
            assert(count(s.drop_first(), t) == 0);
        }
    }
}

proof fn lemma_count_trim_end(s: Seq<char>, t: Seq<char>)
    requires
        t.len() > 0,
        forall|j: int| 0 <= j < t.len() ==> !is_white(#[trigger] t[j]),
    ensures
        count(trim_end(s), t) == count(s, t),
    decreases s.len(),
{
    if s.len() > 0 && is_white(s.last()) {
        lemma_count_trim_end(s.drop_last(), t);
        let c = seq![s.last()];
        assert(s.drop_last() + c =~= s);
        assert(free_of(t, s.last()));
        lemma_no_straddle_at_first(s.drop_last(), c, t);
        lemma_count_concat(s.drop_last(), c, t);
        assert(count(c, t) == 0) by {
            if t.len() == 1 {
                assert(!is_white(t[0]));
                if t.is_prefix_of(c) {
                    assert(t[0] == c.subrange(0, 1)[0]);
                    assert(c[0] == s.last());
                }
                assert(c.drop_first().len() == 0);
                assert(count(c.drop_first(), t) == 0);
            }
        }
    }
}

/// The `id` attribute of the anchor of the digits `w`.
pub open spec fn id_attr(w: Seq<char>) -> Seq<char> {
    "id=\"c"@ + w + "\""@
}

/// `l` is a proper prefix of `w`.
pub open spec fn extends(w: Seq<char>, l: Seq<char>) -> bool {
    l.len() < w.len() && w.take(l.len() as int) == l
}

/// The characters of an anchor's `id` attribute: no whitespace, no angle
/// bracket, no space, no `h`.
proof fn lemma_id_attr_chars(w: Seq<char>)
    requires
        only_keys(w),
    ensures
        id_attr(w).len() == w.len() + 6,
        id_attr(w)[0] == 'i',
        id_attr(w)[1] == 'd',
        id_attr(w)[3] == '"',
        id_attr(w)[4] == 'c',
        forall|j: int| 0 <= j < id_attr(w).len() ==> {
            let c = #[trigger] id_attr(w)[j];
            &&& !is_white(c)
            &&& c != '<' && c != '>' && c != 'h'
        },
{
    reveal_strlit("id=\"c");
    reveal_strlit("\"");
    let t = id_attr(w);
    assert forall|j: int| 0 <= j < t.len() implies {
        let c = #[trigger] t[j];
        &&& !is_white(c)
        &&& c != '<' && c != '>' && c != 'h'
    } by {
        if 5 <= j < 5 + w.len() {
            assert(t[j] == w[j - 5]);
        }
    }
}

/// Markup without the letter `d` holds no `id` attribute.
proof fn lemma_count_no_d(s: Seq<char>, w: Seq<char>)
    requires
        only_keys(w),
        free_of(s, 'd'),
    ensures
        count(s, id_attr(w)) == 0,
{
    lemma_id_attr_chars(w);
    lemma_count_absent(s, id_attr(w), 1);
}

/// Digits hold no `d`, `i`, quote or angle bracket.
proof fn lemma_keys_free(l: Seq<char>)
    requires
        only_keys(l),
    ensures
        free_of(l, 'd'),
        free_of(l, 'i'),
        free_of(l, '"'),
{
}

/// The anchor of the digits `v` holds the `id` attribute of `w` once if
/// `v` is `w`, and not at all otherwise.
proof fn lemma_count_anchor(depth: nat, v: Seq<char>, w: Seq<char>)
    requires
        only_keys(v),
        only_keys(w),
    ensures
        count(anchor_html(depth, v), id_attr(w)) == if v == w { 1nat } else { 0nat },
{
    let t = id_attr(w);
    lemma_id_attr_chars(w);
    lemma_keys_free(v);
    reveal_strlit("<p class=\"invap\"><a class=\"inva ");
    reveal_strlit("kpfin");
    reveal_strlit("kpnfin");
    reveal_strlit("\" name=\"c");
    reveal_strlit("\" id=\"c");
    reveal_strlit("\"></a></p>");
    reveal_strlit("\" ");
    reveal_strlit("id=\"c");
    reveal_strlit("\"");
    let a1 = "<p class=\"invap\"><a class=\"inva "@;
    let cls = crate::keypad::anchor_class(depth, v);
    let x = a1 + cls + "\" name=\"c"@ + v + "\" "@;
    let r = "id=\"c"@ + v + "\"></a></p>"@;
    assert(anchor_html(depth, v) =~= x + r);
    // Before the `id` there is no `d`.
    lemma_concat_free(a1, cls, 'd');
    lemma_concat_free(a1 + cls, "\" name=\"c"@, 'd');
    lemma_concat_free(a1 + cls + "\" name=\"c"@, v, 'd');
    lemma_concat_free(a1 + cls + "\" name=\"c"@ + v, "\" "@, 'd');
    lemma_count_no_d(x, w);
    assert(free_of(t, x.last()));
    lemma_no_straddle_at_last(x, r, t);
    lemma_count_concat(x, r, t);
    // After the `i` of `id` there is no `i`.
    reveal_strlit("d=\"c");
    let r2 = r.drop_first();
    assert(r2 =~= "d=\"c"@ + v + "\"></a></p>"@);
    lemma_concat_free("d=\"c"@, v, 'i');
    lemma_concat_free("d=\"c"@ + v, "\"></a></p>"@, 'i');
    lemma_count_absent(r2, t, 0);
    // The `id` itself matches exactly when `v` is `w`.
    if r.len() >= t.len() {
        if v == w {
            assert forall|i: int| 0 <= i < t.len() implies r.subrange(0, t.len() as int)[i] == t[i] by {
                if i < 5 {
                    assert(r[i] == "id=\"c"@[i]);
                } else if i < 5 + w.len() {
                    assert(r[i] == v[i - 5]);
                } else {
                    assert(r[i] == "\"></a></p>"@[0]);
                    assert(t[i] == "\""@[0]);
                }
            }
            assert(r.subrange(0, t.len() as int) =~= t);
        } else if t.is_prefix_of(r) {
            let m: int = if v.len() < w.len() { v.len() as int } else { w.len() as int };
            if v.len() < w.len() {
                assert(r.subrange(0, t.len() as int)[5 + m] == r[5 + m]);
                assert(r[5 + m] == '"');
                assert(t[5 + m] == w[m]);
            } else if v.len() > w.len() {
                assert(r.subrange(0, t.len() as int)[5 + m] == r[5 + m]);
                assert(r[5 + m] == v[m]);
                assert(t[5 + m] == '"');
            } else {
                assert forall|i: int| 0 <= i < v.len() implies v[i] == w[i] by {
                    assert(r.subrange(0, t.len() as int)[5 + i] == r[5 + i]);
                    assert(r[5 + i] == v[i]);
                    assert(t[5 + i] == w[i]);
                }
                assert(v =~= w);
            }
        }
    } else {
        assert(v != w);
    }
}

/// The buttons of a keypad hold no `d`.
proof fn lemma_buttons_free(l: Seq<char>, k: nat)
    requires
        only_keys(l),
        k <= 9,
    ensures
        free_of(buttons(l, k), 'd'),
    decreases k,
{
    if k > 0 {
        lemma_buttons_free(l, (k - 1) as nat);
        let next = l.push(digit_char(k));
        assert(only_keys(next)) by {
            assert forall|i: int| 0 <= i < next.len() implies '1' <= #[trigger] next[i] <= '9' by {
                if i < l.len() {
                    assert(next[i] == l[i]);
                }
            }
        }
        reveal_strlit("<a class=\"bt\" href=\"#c");
        reveal_strlit("\"></a>");
        lemma_concat_free("<a class=\"bt\" href=\"#c"@, next, 'd');
        lemma_concat_free("<a class=\"bt\" href=\"#c"@ + next, "\"></a>"@, 'd');
        lemma_concat_free(buttons(l, (k - 1) as nat), button_html(next), 'd');
    }
}

/// A keypad digit's value is its place on the keypad.
proof fn lemma_key_value(c: char)
    requires
        '1' <= c <= '9',
    ensures
        1 <= key_value(c) <= 9,
        digit_char(key_value(c)) == c,
        forall|k: nat| 1 <= k <= 9 && digit_char(k) == c ==> k == key_value(c),
{
}

/// Appending a keypad digit keeps a sequence of keypad digits.
proof fn lemma_push_key(l: Seq<char>, k: nat)
    requires
        only_keys(l),
        1 <= k <= 9,
    ensures
        only_keys(l.push(digit_char(k))),
{
    let n = l.push(digit_char(k));
    assert forall|i: int| 0 <= i < n.len() implies '1' <= #[trigger] n[i] <= '9' by {
        if i < l.len() {
            assert(n[i] == l[i]);
        }
    }
}

/// The keypad after the digits `l` holds the `id` attribute of `w` once if
/// `w` extends `l`, and not at all otherwise.
proof fn lemma_count_layer(depth: nat, l: Seq<char>, w: Seq<char>)
    requires
        only_keys(l),
        only_keys(w),
        1 <= w.len() <= depth,
    ensures
        count(layer_html(depth, l), id_attr(w)) == if extends(w, l) { 1nat } else { 0nat },
    decreases depth - l.len(), 10int,
{
    let t = id_attr(w);
    lemma_id_attr_chars(w);
    if l.len() >= depth {
        assert(count(Seq::<char>::empty(), t) == 0);
    } else {
        reveal_strlit("<p class=\"kp kp_");
        reveal_strlit("\">");
        reveal_strlit("</p>");
        lemma_keys_free(l);
        lemma_concat_free("<p class=\"kp kp_"@, l, 'd');
        lemma_concat_free("<p class=\"kp kp_"@ + l, "\">"@, 'd');
        lemma_buttons_free(l, 9);
        lemma_concat_free(layer_open(l), buttons(l, 9), 'd');
        lemma_concat_free(layer_open(l) + buttons(l, 9), "</p>"@, 'd');
        let head = layer_open(l) + buttons(l, 9) + "</p>"@;
        lemma_count_no_d(head, w);
        assert(head.last() == '>');
        lemma_no_straddle_at_last(head, subtrees(depth, l, 9), t);
        lemma_count_concat(head, subtrees(depth, l, 9), t);
        lemma_count_subtrees(depth, l, 9, w);
        if extends(w, l) {
            lemma_key_value(w[l.len() as int]);
        }
    }
}

/// For the first `k` digits `d`, the anchors of `l` followed by `d` and the
/// keypads behind them hold the `id` attribute of `w` once if `w` extends
/// `l` by one of these digits, and not at all otherwise.
proof fn lemma_count_subtrees(depth: nat, l: Seq<char>, k: nat, w: Seq<char>)
    requires
        only_keys(l),
        only_keys(w),
        1 <= w.len() <= depth,
        l.len() < depth,
        k <= 9,
    ensures
        count(subtrees(depth, l, k), id_attr(w)) == if extends(w, l) && key_value(w[l.len() as int]) <= k {
            1nat
        } else {
            0nat
        },
    decreases depth - l.len(), k as int,
{
    let t = id_attr(w);
    lemma_id_attr_chars(w);
    if extends(w, l) {
        lemma_key_value(w[l.len() as int]);
    }
    if k == 0 {
        assert(count(Seq::<char>::empty(), t) == 0);
    } else {
        let c = digit_char(k);
        let v = l.push(c);
        lemma_push_key(l, k);
        let prev = subtrees(depth, l, (k - 1) as nat);
        let an = anchor_html(depth, v);
        let ly = layer_html(depth, v);
        lemma_count_subtrees(depth, l, (k - 1) as nat, w);
        lemma_count_anchor(depth, v, w);
        lemma_count_layer(depth, v, w);
        reveal_strlit("<p class=\"invap\"><a class=\"inva ");
        assert(an[0] == '<');
        lemma_no_straddle_at_first(prev, an, t);
        lemma_count_concat(prev, an, t);
        if ly.len() > 0 {
            reveal_strlit("<p class=\"kp kp_");
            assert(ly[0] == '<');
            lemma_no_straddle_at_first(prev + an, ly, t);
            lemma_count_concat(prev + an, ly, t);
        } else {
            assert(prev + an + ly =~= prev + an);
            assert(count(ly, t) == 0);
        }
        // Which of the three parts holds the attribute.
        if v == w {
            assert(extends(w, l)) by {
                assert(w.take(l.len() as int) =~= l);
            }
            assert(w[l.len() as int] == c);
            assert(!extends(w, v));
        } else if extends(w, v) {
            assert(extends(w, l)) by {
                assert(w.take(l.len() as int) =~= w.take(v.len() as int).take(l.len() as int));
                assert(v.take(l.len() as int) =~= l);
            }
            assert(w[l.len() as int] == w.take(v.len() as int)[l.len() as int]);
        } else if extends(w, l) && w[l.len() as int] == c {
            assert(w.take(v.len() as int) =~= v) by {
                assert forall|i: int| 0 <= i < v.len() implies w.take(v.len() as int)[i] == v[i] by {
                    if i < l.len() {
                        assert(w.take(l.len() as int)[i] == w[i]);
                    }
                }
            }
            if w.len() == v.len() {
                assert(w =~= v);
            }
        }
    }
}

/// In the page that `generate_keypad_html` returns for a passcode of
/// `depth` digits, the `id` attribute `id="c{w}"` of every sequence `w` of
/// one to `depth` keypad digits occurs exactly once: each anchor is unique.
pub proof fn lemma_page_anchor_once(depth: nat, w: Seq<char>)
    requires
        only_keys(w),
        1 <= w.len() <= depth,
    ensures
        count(keypad_html(depth), id_attr(w)) == 1,
{
    let t = id_attr(w);
    lemma_id_attr_chars(w);
    let body = layer_html(depth, Seq::empty());
    lemma_count_layer(depth, Seq::empty(), w);
    assert(extends(w, Seq::empty())) by {
        assert(w.take(0) =~= Seq::<char>::empty());
    }
    let pre = HTML_PRELUDE@;
    let epi = HTML_EPILOGUE@;
    reveal_strlit("\n<div class=\"kpmcon\">\n<a href=\"#r_\">reset</a>\n");
    reveal_strlit("\n</div>\n<details class=\"secret\">\n<summary id=\"this-element-is-important-do-not-delete-it\"></summary>\n<h1 id=\"put-your-own-content-here\">my secret header</h1>\n</details>\n");
    // The prelude holds no digit.
    reveal_strlit("id=\"c");
    assert(t[5] == w[0]);
    assert(free_of(pre, w[0]));
    lemma_count_absent(pre, t, 5);
    // The epilogue never has a quote followed by `c`.
    assert(forall|p: int| 0 <= p < epi.len() - 1 ==> !(#[trigger] epi[p] == t[3] && epi[p + 1] == t[4]));
    lemma_count_no_pair(epi, t, 3);
    assert(pre.last() == '\n');
    lemma_no_straddle_at_last(pre, body, t);
    lemma_count_concat(pre, body, t);
    assert(epi[0] == '\n');
    lemma_no_straddle_at_first(pre + body, epi, t);
    lemma_count_concat(pre + body, epi, t);
    lemma_count_trim(pre + body + epi, t);
}

/// For a valid passcode, the style sheet and the markup that the library
/// generates fit together: the sheet shows the secret on the target
/// `#c{passcode}`, and the markup holds the final anchor of that name, of
/// class `kpfin`, whose `id` occurs nowhere else.
pub proof fn lemma_passcode_unlocks(passcode: Seq<char>, t: ThemeView)
    requires
        valid_passcode(passcode),
    ensures
        contains(keypad_css(passcode, t), secret_rule(passcode)),
        contains(keypad_html(passcode.len()), anchor_html(passcode.len(), passcode)),
        anchor_class(passcode.len(), passcode) == "kpfin"@,
        count(keypad_html(passcode.len()), id_attr(passcode)) == 1,
{
    let depth = passcode.len();
    lemma_css_reveals_on_passcode(passcode, t);
    lemma_page_reaches(depth, passcode);
    lemma_page_anchor_once(depth, passcode);
    let a = anchor_html(depth, passcode);
    let l = layer_html(depth, passcode);
    assert(l.len() == 0);
    assert(a + l =~= a);
}

/// A part of the middle of three texts, read in the whole.
proof fn lemma_subrange_mid(a: Seq<char>, b: Seq<char>, c: Seq<char>, x: int, y: int)
    requires
        0 <= x <= y <= b.len(),
    ensures
        (a + b + c).subrange(a.len() + x, a.len() + y) == b.subrange(x, y),
{
    assert((a + b + c).subrange(a.len() + x, a.len() + y) =~= b.subrange(x, y));
}

/// The first `j` buttons of the keypad after `l` are `j` buttons of equal
/// width, the `k`-th of them leading to `l` followed by the digit `k`.
proof fn lemma_buttons_shape(l: Seq<char>, j: nat)
    requires
        j <= 9,
    ensures
        buttons(l, j).len() == j * (l.len() + 29),
        forall|k: int|
            1 <= k <= j ==> #[trigger] buttons(l, j).subrange((k - 1) * (l.len() + 29), k * (l.len() + 29))
                == button_html(l.push(digit_char(k as nat))),
    decreases j,
{
    reveal_strlit("<a class=\"bt\" href=\"#c");
    reveal_strlit("\"></a>");
    let w: int = l.len() as int + 29;
    if j > 0 {
        lemma_buttons_shape(l, (j - 1) as nat);
        let prev = buttons(l, (j - 1) as nat);
        let b = button_html(l.push(digit_char(j)));
        assert(b.len() == w);
        assert((j - 1) * w + w == j * w) by (nonlinear_arith);
        assert(buttons(l, j) == prev + b);
        assert forall|k: int| 1 <= k <= j implies #[trigger] buttons(l, j).subrange((k - 1) * w, k * w)
            == button_html(l.push(digit_char(k as nat))) by {
            if k < j {
                assert(k * w <= (j - 1) * w) by (nonlinear_arith)
                    requires
                        k <= j - 1,
                        w >= 0,
                ;
                assert(0 <= (k - 1) * w) by (nonlinear_arith)
                    requires
                        k >= 1,
                        w >= 0,
                ;
                assert((k - 1) * w <= k * w) by (nonlinear_arith)
                    requires
                        w >= 0,
                ;
                lemma_subrange_mid(Seq::empty(), prev, b, (k - 1) * w, k * w);
                assert(Seq::<char>::empty() + prev + b =~= prev + b);
            } else {
                lemma_subrange_mid(prev, b, Seq::empty(), 0, w);
                assert(prev + b + Seq::<char>::empty() =~= prev + b);
                assert(b.subrange(0, w) =~= b);
            }
        }
    }
}

/// The keypad shown after any shorter sequence of keypad digits is in the page.
proof fn lemma_page_has_keypad(depth: nat, l: Seq<char>)
    requires
        only_keys(l),
        l.len() < depth,
    ensures
        contains(keypad_html(depth), layer_html(depth, l)),
{
    let ly = layer_html(depth, l);
    if l.len() == 0 {
        assert(l =~= Seq::<char>::empty());
        lemma_page_starts(depth);
    } else {
        lemma_page_reaches(depth, l);
        let an = anchor_html(depth, l);
        lemma_contains_self(ly);
        lemma_contains_concat(ly, ly, Seq::empty(), an);
        assert(ly + Seq::<char>::empty() =~= ly);
        lemma_contains_trans(keypad_html(depth), an + ly, ly);
    }
}

/// The keypad after `l` opens with its tag, then holds its buttons.
proof fn lemma_layer_shape(depth: nat, l: Seq<char>, k: int)
    requires
        l.len() < depth,
        1 <= k <= 9,
    ensures
        layer_html(depth, l).subrange(0, l.len() as int + 18) == layer_open(l),
        layer_html(depth, l).subrange(l.len() + 18 + (k - 1) * (l.len() + 29), l.len() + 18 + k * (l.len() + 29))
            == button_html(l.push(digit_char(k as nat))),
{
    reveal_strlit("<p class=\"kp kp_");
    reveal_strlit("\">");
    let w: int = l.len() as int + 29;
    let o: int = l.len() as int + 18;
    let ly = layer_html(depth, l);
    lemma_buttons_shape(l, 9);
    let bs = buttons(l, 9);
    assert(layer_open(l).len() == o);
    let rest = "</p>"@ + subtrees(depth, l, 9);
    assert(ly =~= layer_open(l) + bs + rest);
    lemma_subrange_mid(Seq::empty(), layer_open(l), bs + rest, 0, o);
    assert(Seq::<char>::empty() + layer_open(l) + (bs + rest) =~= ly);
    assert(layer_open(l).subrange(0, o) =~= layer_open(l));
    assert(k * w <= 9 * w) by (nonlinear_arith)
        requires
            k <= 9,
            w >= 0,
    ;
    assert(0 <= (k - 1) * w) by (nonlinear_arith)
        requires
            k >= 1,
            w >= 0,
    ;
    assert((k - 1) * w <= k * w) by (nonlinear_arith)
        requires
            w >= 0,
    ;
    lemma_subrange_mid(layer_open(l), bs, rest, (k - 1) * w, k * w);
}

/// In the page that `generate_keypad_html` returns for a passcode of `depth`
/// digits, the keypad shown after any shorter sequence `l` of keypad digits
/// opens with the tag of `l`, and its `k`-th button, the one the style sheet
/// labels `k`, links to the anchor of `l` followed by the digit `k`: at every
/// depth, pressing the button labelled `k` enters `k`.
pub proof fn lemma_button_enters_its_digit(depth: nat, l: Seq<char>, k: int)
    requires
        only_keys(l),
        l.len() < depth,
        1 <= k <= 9,
    ensures
        contains(keypad_html(depth), layer_html(depth, l)),
        layer_html(depth, l).subrange(0, l.len() as int + 18) == "<p class=\"kp kp_"@ + l + "\">"@,
        layer_html(depth, l).subrange(l.len() + 18 + (k - 1) * (l.len() + 29), l.len() + 18 + k * (l.len() + 29))
            == "<a class=\"bt\" href=\"#c"@ + l.push((('0' as int) + k) as char) + "\"></a>"@,
{
    lemma_page_has_keypad(depth, l);
    lemma_layer_shape(depth, l, k);
    assert(digit_char(k as nat) == (('0' as int) + k) as char);
}

/// The rules of the first `k` buttons of a pattern row hold the rule of
/// each of them.
proof fn lemma_row_rules_contains(t: ThemeView, row: nat, k: nat, c: int)
    requires
        0 <= c < k,
    ensures
        contains(
            row_rules(t, row, k),
            cell_rule((3 * row + c + 1) as nat, color_content(t.colors[digit_value(t.pattern[row as int][c]) as int])),
        ),
    decreases k,
{
    let cell = cell_rule((3 * row + c + 1) as nat, color_content(t.colors[digit_value(t.pattern[row as int][c]) as int]));
    let prev = row_rules(t, row, (k - 1) as nat);
    if c < k - 1 {
        lemma_row_rules_contains(t, row, (k - 1) as nat, c);
        lemma_contains_concat(prev, cell, row_rules(t, row, k).skip(prev.len() as int), Seq::empty());
        assert(Seq::<char>::empty() + (prev + row_rules(t, row, k).skip(prev.len() as int)) =~= row_rules(t, row, k));
    } else {
        lemma_contains_self(cell);
        lemma_contains_concat(cell, cell, Seq::empty(), prev);
        assert(prev + cell + Seq::<char>::empty() =~= row_rules(t, row, k));
        assert(prev + (cell + Seq::<char>::empty()) =~= row_rules(t, row, k));
    }
}

/// The rules of the first `n` pattern rows hold those of each of them.
proof fn lemma_rows_rules_contains(t: ThemeView, n: nat, row: nat)
    requires
        row < n,
    ensures
        contains(rows_rules(t, n), row_rules(t, row, t.pattern[row as int].len())),
    decreases n,
{
    let rr = row_rules(t, row, t.pattern[row as int].len());
    let prev = rows_rules(t, (n - 1) as nat);
    let last = row_rules(t, (n - 1) as nat, t.pattern[n - 1].len());
    assert(rows_rules(t, n) == prev + last);
    if row < n - 1 {
        lemma_rows_rules_contains(t, (n - 1) as nat, row);
        lemma_contains_concat(prev, rr, last, Seq::empty());
        assert(Seq::<char>::empty() + (prev + last) =~= prev + last);
    } else {
        lemma_contains_self(rr);
        lemma_contains_concat(rr, rr, Seq::empty(), prev);
        assert(prev + (rr + Seq::<char>::empty()) =~= prev + last);
    }
}

/// In a theme's style rules, the button in pattern row `r` and column `c`,
/// the `3r + c + 1`-th, gets the color that the pattern digit there names:
/// the color declaration whose index is that digit's numeric value.
pub proof fn lemma_button_color(t: ThemeView, r: int, c: int)
    requires
        t.pattern.len() == 3,
        pattern_fits(t.pattern, t.colors.len()),
        0 <= r < 3,
        0 <= c < t.pattern[r].len(),
    ensures
        0 <= (t.pattern[r][c] as int - '0' as int) < t.colors.len(),
        contains(
            theme_css(t),
            ".bt:nth-child("@ + decimal((3 * r + c + 1) as nat) + ") {\n    "@ + color_content(
                t.colors[t.pattern[r][c] as int - '0' as int],
            ) + ";\n}\n"@,
        ),
{
    assert(is_digit(t.pattern[r][c]));
    lemma_row_rules_contains(t, r as nat, t.pattern[r].len(), c);
    lemma_rows_rules_contains(t, 3, r as nat);
    let cell = cell_rule((3 * r + c + 1) as nat, color_content(t.colors[digit_value(t.pattern[r][c]) as int]));
    lemma_contains_trans(rows_rules(t, 3), row_rules(t, r as nat, t.pattern[r].len()), cell);
    lemma_contains_concat(rows_rules(t, 3), cell, Seq::empty(), border_rule(t.border));
    assert(border_rule(t.border) + rows_rules(t, 3) + Seq::<char>::empty() =~= theme_css(t));
    assert(border_rule(t.border) + (rows_rules(t, 3) + Seq::<char>::empty()) =~= theme_css(t));
}

/// A theme's style rules open with the rule that gives every button the
/// theme's border, or `1px solid black` where the theme leaves it empty.
pub proof fn lemma_theme_border(t: ThemeView)
    ensures
        t.border.len() > 0 ==> theme_css(t).subrange(0, t.border.len() as int + 22) == ".bt {\n    border: "@ + t.border
            + ";\n}\n"@,
        t.border.len() == 0 ==> theme_css(t).subrange(0, 37) == ".bt {\n    border: 1px solid black;\n}\n"@,
{
    reveal_strlit(".bt {\n    border: ");
    reveal_strlit(";\n}\n");
    reveal_strlit("1px solid black");
    reveal_strlit(".bt {\n    border: 1px solid black;\n}\n");
    let b = border_rule(t.border);
    assert(theme_css(t).subrange(0, b.len() as int) =~= b);
}

} // verus!
