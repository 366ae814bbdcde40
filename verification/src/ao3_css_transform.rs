//! Rewrites a style sheet into the form that AO3's work skins accept: no
//! comments, and one rule per declaration.
use vstd::prelude::*;

use crate::keypad::{generate_keypad_css, keypad_css, Config};
use crate::regex_ops::{regex_replace_all, regex_replace_all_result};
use crate::text::{
    free_of, is_white, join, lemma_concat_free, lemma_join_append, lemma_join_free, lemma_replace_absent, lemma_replace_free,
    lemma_join_last, lemma_split_join, lemma_split_nonempty, lemma_split_pieces_free, lemma_trim_end_char_prefix, lemma_trim_end_prefix,
    lemma_trim_free, lemma_trim_start_concat, lemma_trim_start_head, lemma_trim_start_idempotent,
    lemma_trim_start_skip, trim_end, trim_start, lemma_trim_idempotent, replace, replace_str, split, split_str, str_eq, trim, trim_end_char,
    trim_end_char_str, trim_str, no_comment_opening, pair_free, lemma_pair_free_concat, lemma_pair_free_sub, lemma_trim_pair_free, lemma_replace_char,
    lemma_split_pieces_pair_free, lemma_trim_end_concat, lemma_split_concat, lemma_split_single,
};

verus! {

/// The regex that matches a CSS comment.
pub const COMMENT_PATTERN: &'static str = "(?s)/\\*.*?\\*/";

/// Why a page has no body to take.
#[derive(Debug, PartialEq, Eq)]
pub enum TransformError {
    /// The text has no part that the pattern matches.
    NoMatch,
    /// The pattern matched, but its capture group did not take part.
    NoGroup,
}

/// Where the line-by-line reading of a style sheet stands.
pub enum CssState {
    /// Between rules.
    Outside,
    /// Inside a selector that spans lines, with what was read of it.
    Selector(Seq<char>),
    /// Inside the declarations of the rule with this selector.
    Declaration(Seq<char>),
}

/// The rule that holds the one declaration `decl` for the selector `sel`.
pub open spec fn decl_rule(sel: Seq<char>, decl: Seq<char>) -> Seq<char> {
    sel + " {\n    "@ + decl + "\n}\n"@
}

/// Reads one line: the new state, and the rule that the line completes.
pub open spec fn step(st: CssState, raw: Seq<char>) -> (CssState, Seq<char>) {
    let line = trim(raw);
    if line.len() == 0 {
        (st, Seq::empty())
    } else {
        match st {
            CssState::Declaration(sel) => {
                if line == "}"@ {
                    (CssState::Outside, Seq::empty())
                } else {
                    (CssState::Declaration(sel), decl_rule(trim(sel), trim(line)))
                }
            },
            _ => {
                let sel = match st {
                    CssState::Selector(s) => s,
                    _ => Seq::empty(),
                };
                let more = trim_end_char(line, '{');
                if line.last() == '{' {
                    (CssState::Declaration(more), Seq::empty())
                } else {
                    (CssState::Selector(sel + more), Seq::empty())
                }
            },
        }
    }
}

/// Reads the lines in order: the final state and the rules written.
pub open spec fn run(lines: Seq<Seq<char>>) -> (CssState, Seq<char>)
    decreases lines.len(),
{
    if lines.len() == 0 {
        (CssState::Outside, Seq::empty())
    } else {
        let prev = run(lines.drop_last());
        let next = step(prev.0, lines.last());
        (next.0, prev.1 + next.1)
    }
}

/// The rewritten form of a style sheet without comments: every `;` ends a
/// line, and each declaration becomes a rule of its own.
pub open spec fn ao3_css(css: Seq<char>) -> Seq<char> {
    trim(run(split(replace(css, ";"@, "\n"@), '\n')).1)
}

/// The executable reading state.
enum ParseState {
    Outside,
    Selector(String),
    Declaration(String),
}

impl ParseState {
    spec fn state_view(&self) -> CssState {
        match self {
            ParseState::Outside => CssState::Outside,
            ParseState::Selector(s) => CssState::Selector(s@),
            ParseState::Declaration(s) => CssState::Declaration(s@),
        }
    }
}

/// Reads a non-empty line outside the declarations of a rule.
fn selector_step(st: ParseState, line: &String) -> (r: ParseState)
    requires
        line@.len() > 0,
        !(st.state_view() is Declaration),
        trim(line@) == line@,
    ensures
        (r.state_view(), Seq::<char>::empty()) == step(st.state_view(), line@),
{
    let mut sel = match st {
        ParseState::Selector(s) => s,
        _ => String::new(),
    };
    let more = trim_end_char_str(line.as_str(), '{');
    let n = line.as_str().unicode_len();
    let last = line.as_str().get_char(n - 1);
    if last == '{' {
        ParseState::Declaration(more)
    } else {
        sel.append(more.as_str());
        ParseState::Selector(sel)
    }
}

/// Rewrites a style sheet that holds no comments.
pub fn ao3_css_from_uncommented(css: &str) -> (r: String)
    ensures
        r@ == ao3_css(css@),
{
    proof {
        reveal_strlit(";");
    }
    let replaced = replace_str(css, ";", "\n");
    let lines = split_str(replaced.as_str(), '\n');
    let ghost ls = split(replaced@, '\n');
    let mut state = ParseState::Outside;
    let mut out = String::new();
    let mut i: usize = 0;
    assert(ls.take(0) =~= Seq::<Seq<char>>::empty());
    while i < lines.len()
        invariant
            i <= lines@.len() == ls.len(),
            forall|k: int| 0 <= k < lines@.len() ==> #[trigger] lines@[k]@ == ls[k],
            run(ls.take(i as int)) == (state.state_view(), out@),
        decreases lines@.len() - i,
    {
        assert(ls.take(i + 1).drop_last() =~= ls.take(i as int));
        assert(ls.take(i + 1).last() == lines@[i as int]@);
        let line = trim_str(lines[i].as_str());
        let ghost prev = state.state_view();
        if line.as_str().unicode_len() == 0 {
            assert(step(prev, lines@[i as int]@) == (prev, Seq::<char>::empty()));
            assert(out@ + Seq::<char>::empty() =~= out@);
        } else {
            let ghost out0 = out@;
            let next = match state {
                ParseState::Declaration(sel) => {
                    if str_eq(line.as_str(), "}") {
                        ParseState::Outside
                    } else {
                        let s = trim_str(sel.as_str());
                        let d = trim_str(line.as_str());
                        out.append(s.as_str());
                        out.append(" {\n    ");
                        out.append(d.as_str());
                        out.append("\n}\n");
                        assert(out@ =~= out0 + decl_rule(trim(sel@), trim(line@)));
                        ParseState::Declaration(sel)
                    }
                },
                other => {
                    assert(trim(trim(lines@[i as int]@)) == trim(lines@[i as int]@)) by {
                        lemma_trim_idempotent(lines@[i as int]@);
                    }
                    assert(out@ + Seq::<char>::empty() =~= out@);
                    selector_step(other, &line)
                },
            };
            state = next;
        }
        i += 1;
    }
    assert(ls.take(lines@.len() as int) =~= ls);
    trim_str(out.as_str())
}

/// Rewrites a style sheet for AO3: comments removed (the regex crate matches
/// them with `COMMENT_PATTERN`), every `;` ending a line, and each declaration
/// a rule of its own. A style sheet in which no `/` is followed by `*` is
/// rewritten as it stands, and its rewrite is rewritten to itself: rewriting
/// twice is rewriting once.
pub fn ao3_css_transform(css: &str) -> (r: String)
    ensures
        r@ == ao3_css(regex_replace_all_result(COMMENT_PATTERN@, css@, ""@)),
        no_comment_opening(css@) ==> r@ == ao3_css(css@),
        no_comment_opening(css@) ==> no_comment_opening(r@) && ao3_css(r@) == r@,
{
    proof {
        if no_comment_opening(css@) {
            lemma_ao3_css_comment_free(css@);
            lemma_ao3_css_idempotent(css@);
        }
    }
    match regex_replace_all(COMMENT_PATTERN, css, "") {
        Ok(uncommented) => ao3_css_from_uncommented(uncommented.as_str()),
        Err(_) => unreached(),
    }
}

/// The keypad's style sheet for `config`, rewritten for AO3.
pub fn ao3_keypad_css(config: &Config) -> (r: String)
    ensures
        r@ == ao3_css(
            regex_replace_all_result(COMMENT_PATTERN@, keypad_css(config.passcode@, config.theme@), ""@),
        ),
{
    let css = generate_keypad_css(config);
    ao3_css_transform(css.as_str())
}

/// A rule as the rewrite writes it: selector and declaration hold no line
/// break and no `;` and are trimmed; the declaration is neither empty nor `}`.
pub open spec fn clean_rule(r: (Seq<char>, Seq<char>)) -> bool {
    &&& free_of(r.0, '\n') && free_of(r.0, ';')
    &&& free_of(r.1, '\n') && free_of(r.1, ';')
    &&& trim(r.0) == r.0
    &&& r.1.len() > 0 && trim(r.1) == r.1 && r.1 != "}"@
}

/// The text of a list of one-declaration rules.
pub open spec fn rules_text(rs: Seq<(Seq<char>, Seq<char>)>) -> Seq<char>
    decreases rs.len(),
{
    if rs.len() == 0 {
        Seq::empty()
    } else {
        rules_text(rs.drop_last()) + decl_rule(rs.last().0, rs.last().1)
    }
}

/// The lines that the text of a list of rules is made of.
pub open spec fn rule_lines(rs: Seq<(Seq<char>, Seq<char>)>) -> Seq<Seq<char>>
    decreases rs.len(),
{
    if rs.len() == 0 {
        Seq::empty()
    } else {
        rule_lines(rs.drop_last()) + seq![rs.last().0 + " {"@, "    "@ + rs.last().1, "}"@]
    }
}

/// The rules written while reading `lines`.
pub open spec fn run_rules(lines: Seq<Seq<char>>) -> Seq<(Seq<char>, Seq<char>)>
    decreases lines.len(),
{
    if lines.len() == 0 {
        Seq::empty()
    } else {
        let prev = run(lines.drop_last()).0;
        let rs = run_rules(lines.drop_last());
        let line = trim(lines.last());
        match prev {
            CssState::Declaration(sel) => {
                if line.len() > 0 && line != "}"@ {
                    rs.push((trim(sel), trim(line)))
                } else {
                    rs
                }
            },
            _ => rs,
        }
    }
}

/// The text held by a reading state holds no line break and no `;`.
pub open spec fn state_free(st: CssState) -> bool {
    match st {
        CssState::Outside => true,
        CssState::Selector(s) => free_of(s, '\n') && free_of(s, ';'),
        CssState::Declaration(s) => free_of(s, '\n') && free_of(s, ';'),
    }
}

/// A trimmed non-empty text starts and ends with non-whitespace.
proof fn lemma_trimmed_ends(s: Seq<char>)
    requires
        trim(s) == s,
        s.len() > 0,
    ensures
        !is_white(s[0]),
        !is_white(s.last()),
{
    lemma_trim_start_head(s);
    lemma_trim_end_prefix(trim_start(s));
    assert(s[0] == trim_start(s)[0]);
}

/// Reading lines without line breaks or `;` writes clean rules, and the text
/// it writes is theirs.
proof fn lemma_run_clean(lines: Seq<Seq<char>>)
    requires
        forall|i: int| 0 <= i < lines.len() ==> free_of(#[trigger] lines[i], '\n') && free_of(lines[i], ';'),
    ensures
        run(lines).1 == rules_text(run_rules(lines)),
        forall|i: int| 0 <= i < run_rules(lines).len() ==> clean_rule(#[trigger] run_rules(lines)[i]),
        state_free(run(lines).0),
    decreases lines.len(),
{
    if lines.len() > 0 {
        let prev = lines.drop_last();
        assert forall|i: int| 0 <= i < prev.len() implies free_of(#[trigger] prev[i], '\n') && free_of(prev[i], ';') by {
            assert(prev[i] == lines[i]);
        }
        lemma_run_clean(prev);
        let raw = lines.last();
        assert(free_of(raw, '\n') && free_of(raw, ';'));
        let line = trim(raw);
        lemma_trim_free(raw, '\n');
        lemma_trim_free(raw, ';');
        lemma_trim_idempotent(raw);
        let st = run(prev).0;
        let out = run(prev).1;
        let rs = run_rules(prev);
        if line.len() == 0 {
            assert(out + Seq::<char>::empty() =~= out);
        } else {
            match st {
                CssState::Declaration(sel) => {
                    if line == "}"@ {
                        assert(out + Seq::<char>::empty() =~= out);
                    } else {
                        lemma_trim_free(sel, '\n');
                        lemma_trim_free(sel, ';');
                        lemma_trim_idempotent(sel);
                        let r = (trim(sel), trim(line));
                        assert(clean_rule(r));
                        assert(rs.push(r).drop_last() =~= rs);
                        assert forall|i: int| 0 <= i < rs.push(r).len() implies clean_rule(#[trigger] rs.push(r)[i]) by {
                            if i < rs.len() {
                                assert(rs.push(r)[i] == rs[i]);
                            }
                        }
                    }
                },
                _ => {
                    let sel = match st {
                        CssState::Selector(s) => s,
                        _ => Seq::<char>::empty(),
                    };
                    let more = trim_end_char(line, '{');
                    lemma_trim_end_char_prefix(line, '{');
                    assert forall|i: int| 0 <= i < more.len() implies #[trigger] more[i] != '\n' && more[i] != ';' by {
                        assert(more[i] == line[i]);
                    }
                    lemma_concat_free(sel, more, '\n');
                    lemma_concat_free(sel, more, ';');
                    assert(out + Seq::<char>::empty() =~= out);
                },
            }
        }
    }
}

/// Reading depends on each line's trimmed form alone.
proof fn lemma_run_trim_congruent(a: Seq<Seq<char>>, b: Seq<Seq<char>>)
    requires
        a.len() == b.len(),
        forall|i: int| 0 <= i < a.len() ==> trim(#[trigger] a[i]) == trim(b[i]),
    ensures
        run(a) == run(b),
    decreases a.len(),
{
    if a.len() > 0 {
        assert forall|i: int| 0 <= i < a.drop_last().len() implies trim(#[trigger] a.drop_last()[i]) == trim(
            b.drop_last()[i],
        ) by {
            assert(a.drop_last()[i] == a[i]);
            assert(b.drop_last()[i] == b[i]);
        }
        lemma_run_trim_congruent(a.drop_last(), b.drop_last());
        assert(trim(a.last()) == trim(b.last()));
    }
}

/// Reading the lines of clean rules gives them back.
proof fn lemma_run_rule_lines(rs: Seq<(Seq<char>, Seq<char>)>)
    requires
        forall|i: int| 0 <= i < rs.len() ==> clean_rule(#[trigger] rs[i]),
    ensures
        run(rule_lines(rs)) == (CssState::Outside, rules_text(rs)),
    decreases rs.len(),
{
    if rs.len() > 0 {
        let rp = rs.drop_last();
        assert forall|i: int| 0 <= i < rp.len() implies clean_rule(#[trigger] rp[i]) by {
            assert(rp[i] == rs[i]);
        }
        lemma_run_rule_lines(rp);
        let (s, d) = rs.last();
        assert(clean_rule(rs.last()));
        reveal_strlit(" {");
        reveal_strlit("    ");
        reveal_strlit("}");
        let l1 = s + " {"@;
        let l2 = "    "@ + d;
        let l3 = "}"@;
        let ls = rule_lines(rs);
        let lp = rule_lines(rp);
        assert(ls.drop_last().drop_last().drop_last() =~= lp);
        assert(ls.drop_last().drop_last().last() == l1);
        assert(ls.drop_last().last() == l2);
        assert(ls.last() == l3);
        let out = rules_text(rp);
        // The selector line opens the declarations.
        let more = if s.len() == 0 { Seq::<char>::empty() } else { s + " "@ };
        reveal_strlit(" ");
        if s.len() == 0 {
            assert(l1.drop_first() =~= seq!['{']);
            assert(trim_start(seq!['{']) == seq!['{']);
            assert(trim(l1) =~= seq!['{']);
            assert(seq!['{'].drop_last() =~= Seq::<char>::empty());
            assert(trim_end_char(Seq::<char>::empty(), '{') == Seq::<char>::empty());
            assert(trim_end_char(seq!['{'], '{') == Seq::<char>::empty());
        } else {
            lemma_trimmed_ends(s);
            assert(l1[0] == s[0]);
            assert(trim_start(l1) == l1);
            assert(trim(l1) == l1);
            assert(l1.drop_last() =~= s + " "@);
            assert(trim_end_char(s + " "@, '{') == s + " "@);
        }
        assert(step(CssState::Outside, l1) == (CssState::Declaration(more), Seq::<char>::empty()));
        // The declaration line writes the rule.
        lemma_trimmed_ends(d);
        let t1 = l2.drop_first();
        let t2 = t1.drop_first();
        let t3 = t2.drop_first();
        let t4 = t3.drop_first();
        assert(t4 =~= d);
        assert(l2[0] == ' ' && t1[0] == ' ' && t2[0] == ' ' && t3[0] == ' ');
        assert(trim_start(t4) == d);
        assert(trim_start(t3) == trim_start(t4));
        assert(trim_start(t2) == trim_start(t3));
        assert(trim_start(t1) == trim_start(t2));
        assert(trim_start(l2) == d);
        assert(trim_end(d) == d);
        assert(trim(l2) == d);
        if s.len() == 0 {
            assert(trim(more) =~= s);
        } else {
            assert(more[0] == s[0]);
            assert(trim_start(more) == more);
            assert(more.drop_last() =~= s);
            assert(trim_end(s) == s);
            assert(trim(more) == s);
        }
        assert(step(CssState::Declaration(more), l2) == (CssState::Declaration(more), decl_rule(s, d)));
        // The closing line ends it.
        assert(trim_start(l3) == l3);
        assert(trim(l3) == l3);
        assert(step(CssState::Declaration(more), l3) == (CssState::Outside, Seq::<char>::empty()));
        let ls2 = ls.drop_last();
        let ls1 = ls2.drop_last();
        assert(ls1.drop_last() == lp);
        assert(ls1.last() == l1);
        assert(ls2.last() == l2);
        assert(out + Seq::<char>::empty() =~= out);
        assert(run(ls1) == (CssState::Declaration(more), out));
        assert(run(ls2) == (CssState::Declaration(more), out + decl_rule(s, d)));
        assert(run(ls) == (CssState::Outside, out + decl_rule(s, d) + Seq::<char>::empty()));
        assert(out + decl_rule(s, d) + Seq::<char>::empty() =~= rules_text(rs));
    }
}

/// The lines of clean rules: three per rule, the first opening the first
/// rule, the last closing, none holding a line break or `;`.
proof fn lemma_rule_lines_shape(rs: Seq<(Seq<char>, Seq<char>)>)
    requires
        forall|i: int| 0 <= i < rs.len() ==> clean_rule(#[trigger] rs[i]),
    ensures
        rule_lines(rs).len() == 3 * rs.len(),
        rs.len() > 0 ==> rule_lines(rs)[0] == rs[0].0 + " {"@,
        rs.len() > 0 ==> rule_lines(rs).last() == "}"@,
        forall|i: int| 0 <= i < rule_lines(rs).len() ==> free_of(#[trigger] rule_lines(rs)[i], '\n') && free_of(
            rule_lines(rs)[i],
            ';',
        ),
    decreases rs.len(),
{
    if rs.len() > 0 {
        let rp = rs.drop_last();
        assert forall|i: int| 0 <= i < rp.len() implies clean_rule(#[trigger] rp[i]) by {
            assert(rp[i] == rs[i]);
        }
        lemma_rule_lines_shape(rp);
        reveal_strlit(" {");
        reveal_strlit("    ");
        reveal_strlit("}");
        let (sl, dl) = rs.last();
        assert(clean_rule(rs.last()));
        let three = seq![sl + " {"@, "    "@ + dl, "}"@];
        lemma_concat_free(sl, " {"@, '\n');
        lemma_concat_free(sl, " {"@, ';');
        lemma_concat_free("    "@, dl, '\n');
        lemma_concat_free("    "@, dl, ';');
        let ls = rule_lines(rs);
        assert forall|i: int| 0 <= i < ls.len() implies free_of(#[trigger] ls[i], '\n') && free_of(ls[i], ';') by {
            if i < rule_lines(rp).len() {
                assert(ls[i] == rule_lines(rp)[i]);
            } else {
                assert(ls[i] == three[i - rule_lines(rp).len()]);
            }
        }
        if rp.len() == 0 {
            assert(ls[0] == three[0]);
        } else {
            assert(ls[0] == rule_lines(rp)[0]);
            assert(rp[0] == rs[0]);
        }
    }
}

/// The text of clean rules is their lines joined, ending in a line break.
proof fn lemma_rules_text_join(rs: Seq<(Seq<char>, Seq<char>)>)
    requires
        rs.len() > 0,
    ensures
        rules_text(rs) == join(rule_lines(rs), '\n') + "\n"@,
    decreases rs.len(),
{
    reveal_strlit(" {");
    reveal_strlit("    ");
    reveal_strlit("}");
    reveal_strlit("\n");
    reveal_strlit(" {\n    ");
    reveal_strlit("\n}\n");
    let rp = rs.drop_last();
    let (sl, dl) = rs.last();
    let three = seq![sl + " {"@, "    "@ + dl, "}"@];
    let t1 = three.drop_first();
    let t2 = t1.drop_first();
    assert(t2.len() == 1 && t2[0] == "}"@);
    assert(join(t2, '\n') == "}"@);
    assert(t1[0] == "    "@ + dl);
    assert(join(t1, '\n') == t1[0] + seq!['\n'] + join(t2, '\n'));
    assert(join(three, '\n') == three[0] + seq!['\n'] + join(t1, '\n'));
    assert(join(three, '\n') =~= sl + " {"@ + seq!['\n'] + ("    "@ + dl + seq!['\n'] + "}"@));
    assert(decl_rule(sl, dl) =~= join(three, '\n') + "\n"@);
    if rp.len() == 0 {
        assert(rule_lines(rp) =~= Seq::<Seq<char>>::empty());
        assert(rule_lines(rs) =~= three);
        assert(rules_text(rp) =~= Seq::<char>::empty());
        assert(rules_text(rs) =~= decl_rule(sl, dl));
    } else {
        lemma_rules_text_join(rp);
        assert(rule_lines(rp).len() >= 1) by {
            assert(rule_lines(rp).len() == rule_lines(rp.drop_last()).len() + 3);
        }
        lemma_join_append(rule_lines(rp), three, '\n');
        assert(rules_text(rs) =~= join(rule_lines(rp), '\n') + "\n"@ + (join(three, '\n') + "\n"@));
        assert(join(rule_lines(rs), '\n') + "\n"@ =~= join(rule_lines(rp), '\n') + seq!['\n'] + join(
            three,
            '\n',
        ) + "\n"@);
    }
}

/// Rewriting what a rewrite wrote changes nothing: its output is already in
/// the form of one rule per declaration.
pub proof fn lemma_ao3_css_idempotent(css: Seq<char>)
    ensures
        ao3_css(ao3_css(css)) == ao3_css(css),
{
    reveal_strlit(";");
    reveal_strlit("\n");
    reveal_strlit(" {");
    let pat = ";"@;
    let nl = "\n"@;
    let lines = split(replace(css, pat, nl), '\n');
    reveal_strlit("}");
    assert(pat =~= seq![';']);
    assert(nl =~= seq!['\n']);
    lemma_replace_free(css, pat, nl, ';');
    lemma_split_pieces_free(replace(css, pat, nl), '\n', ';');
    lemma_run_clean(lines);
    let rs = run_rules(lines);
    let y = ao3_css(css);
    assert(y == trim(rules_text(rs)));
    if rs.len() == 0 {
        assert(y =~= Seq::<char>::empty());
        assert(replace(y, pat, nl) =~= Seq::<char>::empty());
        assert(split(Seq::<char>::empty(), '\n') =~= seq![Seq::<char>::empty()]);
        assert(run(seq![Seq::<char>::empty()]) == (CssState::Outside, Seq::<char>::empty())) by {
            assert(seq![Seq::<char>::empty()].drop_last() =~= Seq::<Seq<char>>::empty());
            assert(trim_start(Seq::<char>::empty()) == Seq::<char>::empty());
            assert(trim(Seq::<char>::empty()) == Seq::<char>::empty());
            assert(Seq::<char>::empty() + Seq::<char>::empty() =~= Seq::<char>::empty());
            let one = seq![Seq::<char>::empty()];
            assert(one.last() == Seq::<char>::empty());
            assert(run(one.drop_last()) == (CssState::Outside, Seq::<char>::empty()));
            assert(step(CssState::Outside, Seq::<char>::empty()) == (CssState::Outside, Seq::<char>::empty()));
        }
    } else {
        lemma_rule_lines_shape(rs);
        lemma_rules_text_join(rs);
        let ls = rule_lines(rs);
        let x = join(ls, '\n');
        let first = ls[0];
        let k = first.len() - 1;
        assert(first[k] == '{');
        // The leading whitespace lies in the first line.
        assert(ls.len() > 1);
        assert(x == first + seq!['\n'] + join(ls.drop_first(), '\n'));
        lemma_trim_start_concat(first, seq!['\n'] + join(ls.drop_first(), '\n'), k);
        assert(first + (seq!['\n'] + join(ls.drop_first(), '\n')) =~= x);
        assert(x[k] == '{');
        lemma_trim_start_concat(x, nl, k);
        // The trailing whitespace is the final line break.
        let a = lemma_trim_start_skip(x);
        lemma_join_last(ls, '\n');
        assert(x.last() == '}');
        assert(a <= k);
        let ts = trim_start(x);
        assert(ts.last() == '}');
        assert((ts + nl).drop_last() =~= ts);
        assert(trim_end(ts + nl) == trim_end(ts));
        assert(trim_end(ts) == ts);
        assert(y == ts);
        // The lines of the output.
        let ls2 = ls.update(0, trim_start(first));
        assert(ls2.drop_first() =~= ls.drop_first());
        assert(ts =~= join(ls2, '\n'));
        let b = lemma_trim_start_skip(first);
        assert(free_of(trim_start(first), '\n') && free_of(trim_start(first), ';')) by {
            assert forall|i: int| 0 <= i < trim_start(first).len() implies #[trigger] trim_start(first)[i] != '\n'
                && trim_start(first)[i] != ';' by {
                assert(trim_start(first)[i] == first[b + i]);
            }
        }
        assert forall|i: int| 0 <= i < ls2.len() implies free_of(#[trigger] ls2[i], '\n') && free_of(ls2[i], ';') by {
            if i > 0 {
                assert(ls2[i] == ls[i]);
            }
        }
        lemma_split_join(ls2, '\n');
        // The output holds no `;`.
        lemma_join_free(ls2, '\n', ';');
        assert forall|i: int| 0 <= i < y.len() implies #[trigger] y[i] != pat[0] by {
            assert(y[i] != ';');
        }
        lemma_replace_absent(y, pat, nl);
        // Reading the output's lines writes the same rules again.
        lemma_trim_start_idempotent(first);
        assert forall|i: int| 0 <= i < ls2.len() implies trim(#[trigger] ls2[i]) == trim(ls[i]) by {
        }
        lemma_run_trim_congruent(ls2, ls);
        lemma_run_rule_lines(rs);
    }
}

/// A reading state that holds a comment opening `/*` only where a selector is
/// still being read.
pub open spec fn state_comment_free(st: CssState) -> bool {
    match st {
        CssState::Declaration(s) => pair_free(s, '/', '*'),
        _ => true,
    }
}

/// Reading lines without a comment opening writes rules without one.
proof fn lemma_run_comment_free(lines: Seq<Seq<char>>)
    requires
        forall|i: int| 0 <= i < lines.len() ==> pair_free(#[trigger] lines[i], '/', '*'),
    ensures
        forall|i: int| 0 <= i < run_rules(lines).len() ==> pair_free((#[trigger] run_rules(lines)[i]).0, '/', '*')
            && pair_free(run_rules(lines)[i].1, '/', '*'),
        state_comment_free(run(lines).0),
    decreases lines.len(),
{
    if lines.len() > 0 {
        let prev = lines.drop_last();
        assert forall|i: int| 0 <= i < prev.len() implies pair_free(#[trigger] prev[i], '/', '*') by {
            assert(prev[i] == lines[i]);
        }
        lemma_run_comment_free(prev);
        let raw = lines.last();
        let line = trim(raw);
        lemma_trim_pair_free(raw, '/', '*');
        let st = run(prev).0;
        let rs = run_rules(prev);
        if line.len() > 0 {
            match st {
                CssState::Declaration(sel) => {
                    if line != "}"@ {
                        lemma_trim_pair_free(sel, '/', '*');
                        lemma_trim_pair_free(line, '/', '*');
                        let r = (trim(sel), trim(line));
                        assert forall|i: int| 0 <= i < rs.push(r).len() implies pair_free(
                            (#[trigger] rs.push(r)[i]).0,
                            '/',
                            '*',
                        ) && pair_free(rs.push(r)[i].1, '/', '*') by {
                            if i < rs.len() {
                                assert(rs.push(r)[i] == rs[i]);
                            }
                        }
                    }
                },
                _ => {
                    let more = trim_end_char(line, '{');
                    lemma_trim_end_char_prefix(line, '{');
                    lemma_pair_free_sub(line, 0, more.len() as int, '/', '*');
                    assert(more =~= line.subrange(0, more.len() as int));
                },
            }
        }
    }
}

/// The text of rules without a comment opening holds none.
proof fn lemma_rules_text_comment_free(rs: Seq<(Seq<char>, Seq<char>)>)
    requires
        forall|i: int| 0 <= i < rs.len() ==> pair_free((#[trigger] rs[i]).0, '/', '*') && pair_free(
            rs[i].1,
            '/',
            '*',
        ),
    ensures
        pair_free(rules_text(rs), '/', '*'),
        rules_text(rs).len() == 0 || rules_text(rs).last() == '\n',
    decreases rs.len(),
{
    if rs.len() > 0 {
        let prev = rs.drop_last();
        assert forall|i: int| 0 <= i < prev.len() implies pair_free((#[trigger] prev[i]).0, '/', '*') && pair_free(
            prev[i].1,
            '/',
            '*',
        ) by {
            assert(prev[i] == rs[i]);
        }
        lemma_rules_text_comment_free(prev);
        let sel = rs.last().0;
        let decl = rs.last().1;
        let open = " {\n    "@;
        let close = "\n}\n"@;
        reveal_strlit(" {\n    ");
        reveal_strlit("\n}\n");
        assert(pair_free(open, '/', '*'));
        assert(pair_free(close, '/', '*'));
        let t0 = rules_text(prev);
        lemma_pair_free_concat(t0, sel, '/', '*');
        lemma_pair_free_concat(t0 + sel, open, '/', '*');
        lemma_pair_free_concat(t0 + sel + open, decl, '/', '*');
        assert((t0 + sel + open).last() == ' ');
        lemma_pair_free_concat(t0 + sel + open + decl, close, '/', '*');
        assert(rules_text(rs) =~= t0 + sel + open + decl + close);
    }
}

/// Rewriting a style sheet that holds no comment opening `/*` writes none:
/// every piece of the output is a piece of the input.
pub proof fn lemma_ao3_css_comment_free(css: Seq<char>)
    requires
        no_comment_opening(css),
    ensures
        no_comment_opening(ao3_css(css)),
{
    reveal_strlit(";");
    reveal_strlit("\n");
    let pat = ";"@;
    let nl = "\n"@;
    assert(pat =~= seq![';']);
    assert(nl =~= seq!['\n']);
    let x = replace(css, pat, nl);
    lemma_replace_char(css, ';', '\n');
    assert forall|k: int| 0 <= k < x.len() - 1 implies !(#[trigger] x[k] == '/' && x[k + 1] == '*') by {
        assert(x[k] == if css[k] == ';' { '\n' } else { css[k] });
        assert(x[k + 1] == if css[k + 1] == ';' { '\n' } else { css[k + 1] });
    }
    let lines = split(x, '\n');
    lemma_split_pieces_pair_free(x, '\n', '/', '*');
    lemma_replace_free(css, pat, nl, ';');
    lemma_split_pieces_free(x, '\n', ';');
    lemma_run_clean(lines);
    lemma_run_comment_free(lines);
    lemma_rules_text_comment_free(run_rules(lines));
    lemma_trim_pair_free(rules_text(run_rules(lines)), '/', '*');
}

/// The lines a style sheet is read in: every `;` ends a line.
pub open spec fn css_lines(css: Seq<char>) -> Seq<Seq<char>> {
    split(replace(css, ";"@, "\n"@), '\n')
}

/// Reading more lines after a state outside any declarations writes what
/// reading them alone writes, and ends in a state that differs, if at all,
/// only in the selector text read so far.
proof fn lemma_run_append(l1: Seq<Seq<char>>, l2: Seq<Seq<char>>)
    requires
        !(run(l1).0 is Declaration),
    ensures
        run(l1 + l2).1 == run(l1).1 + run(l2).1,
        run(l1 + l2).0 == run(l2).0 || (!(run(l1 + l2).0 is Declaration) && !(run(l2).0 is Declaration)),
    decreases l2.len(),
{
    if l2.len() == 0 {
        assert(l1 + l2 =~= l1);
        assert(run(l1).1 + Seq::<char>::empty() =~= run(l1).1);
    } else {
        let p2 = l2.drop_last();
        lemma_run_append(l1, p2);
        assert((l1 + l2).drop_last() =~= l1 + p2);
        assert((l1 + l2).last() == l2.last());
        let s1 = run(l1 + p2).0;
        let s2 = run(p2).0;
        let line = l2.last();
        assert(step(s1, line).1 == step(s2, line).1);
        assert(run(l1).1 + run(p2).1 + step(s2, line).1 =~= run(l1).1 + (run(p2).1 + step(s2, line).1));
    }
}

/// The text of at least one rule ends with `}` and a line break, and starts
/// with the first rule's selector.
proof fn lemma_rules_text_ends(rs: Seq<(Seq<char>, Seq<char>)>)
    requires
        rs.len() > 0,
    ensures
        rules_text(rs).len() >= 2,
        rules_text(rs).last() == '\n',
        rules_text(rs)[rules_text(rs).len() - 2] == '}',
        rs[0].0.len() > 0 ==> rules_text(rs)[0] == rs[0].0[0],
    decreases rs.len(),
{
    reveal_strlit(" {\n    ");
    reveal_strlit("\n}\n");
    let prev = rs.drop_last();
    let r = rs.last();
    let t0 = rules_text(prev);
    assert(rules_text(rs) =~= t0 + (r.0 + " {\n    "@ + r.1 + "\n}\n"@));
    if prev.len() > 0 {
        lemma_rules_text_ends(prev);
        assert(prev[0] == rs[0]);
    } else {
        assert(t0.len() == 0);
    }
}

/// Rewriting two style sheets one after the other gives their two rewrites,
/// one line apart, provided the first ends with a line break or `;` outside
/// any rule's declarations, both rewrites are non-empty, and the first rule
/// of the second sheet has a selector: each sheet is rewritten on its own.
pub proof fn lemma_ao3_css_concat(a: Seq<char>, b: Seq<char>)
    requires
        a.len() > 0,
        a.last() == '\n' || a.last() == ';',
        !(run(css_lines(a)).0 is Declaration),
        ao3_css(a).len() > 0,
        ao3_css(b).len() > 0,
        run_rules(css_lines(b)).len() > 0 ==> run_rules(css_lines(b))[0].0.len() > 0,
    ensures
        ao3_css(a + b) == ao3_css(a) + "\n"@ + ao3_css(b),
{
    reveal_strlit(";");
    reveal_strlit("\n");
    let pat = ";"@;
    let nl = "\n"@;
    assert(pat =~= seq![';']);
    assert(nl =~= seq!['\n']);
    // Replacing `;` works character by character.
    let ra = replace(a, pat, nl);
    let rb = replace(b, pat, nl);
    let rab = replace(a + b, pat, nl);
    lemma_replace_char(a, ';', '\n');
    lemma_replace_char(b, ';', '\n');
    lemma_replace_char(a + b, ';', '\n');
    assert(rab =~= ra + rb) by {
        assert forall|i: int| 0 <= i < rab.len() implies rab[i] == (ra + rb)[i] by {
            if i < a.len() {
                assert((a + b)[i] == a[i]);
            } else {
                assert((a + b)[i] == b[i - a.len()]);
            }
        }
    }
    assert(ra.last() == '\n');
    // The lines of `a + b`: those of `a` but its empty last one, then those of `b`.
    let head = ra.drop_last();
    assert(head + seq!['\n'] + rb =~= rab);
    lemma_split_concat(head, rb, '\n');
    assert(ra.drop_last() =~= head);
    let p = split(head, '\n');
    assert(css_lines(a) == p.push(Seq::<char>::empty()));
    assert(css_lines(a + b) == p + css_lines(b));
    assert(trim(Seq::<char>::empty()) =~= Seq::<char>::empty());
    assert(p.push(Seq::<char>::empty()).drop_last() =~= p);
    assert(run(css_lines(a)).1 =~= run(p).1);
    lemma_run_append(p, css_lines(b));
    // Each sheet writes the text of its rules.
    lemma_replace_free(a, pat, nl, ';');
    lemma_replace_free(b, pat, nl, ';');
    lemma_split_pieces_free(ra, '\n', ';');
    lemma_split_pieces_free(rb, '\n', ';');
    lemma_run_clean(css_lines(a));
    lemma_run_clean(css_lines(b));
    let rsa = run_rules(css_lines(a));
    let rsb = run_rules(css_lines(b));
    let ta = rules_text(rsa);
    let tb = rules_text(rsb);
    if rsa.len() == 0 {
        assert(trim_start(Seq::<char>::empty()) =~= Seq::<char>::empty());
    }
    if rsb.len() == 0 {
        assert(trim_start(Seq::<char>::empty()) =~= Seq::<char>::empty());
    }
    lemma_rules_text_ends(rsa);
    lemma_rules_text_ends(rsb);
    // The second text starts with a selector, so it is not trimmed at its start.
    assert(clean_rule(rsb[0]));
    lemma_trimmed_ends(rsb[0].0);
    assert(!is_white(tb[0]));
    assert(trim_start(tb) == tb);
    // Trimming the whole trims the first text at its start and the second at its end.
    let k = ta.len() - 2;
    lemma_trim_start_concat(ta, tb, k);
    let sa = lemma_trim_start_skip(ta);
    let t = trim_start(ta);
    assert(sa <= k);
    lemma_trim_end_concat(t, tb, 0);
    // The first rewrite is the first text up to its final line break.
    assert(t.last() == '\n');
    assert(t.drop_last().last() == '}');
    assert(trim_end(t.drop_last()) == t.drop_last());
    assert(trim_end(t) == t.drop_last());
    assert(ao3_css(a) == t.drop_last());
    assert(ao3_css(b) == trim_end(tb));
    assert(ao3_css(a + b) == trim_end(trim_start(ta + tb)));
    assert(t =~= t.drop_last() + nl);
}

/// Outside a rule's declarations, a non-empty line that ends with `{` opens
/// the declarations of the selector written before the brace, whatever
/// character precedes it; the line writes nothing yet.
pub proof fn lemma_brace_opens_block(st: CssState, raw: Seq<char>)
    requires
        !(st is Declaration),
        trim(raw).len() > 0,
        trim(raw).last() == '{',
    ensures
        step(st, raw) == (CssState::Declaration(trim_end_char(trim(raw), '{')), Seq::<char>::empty()),
{
}

/// A rule with one declaration, its brace right after the selector, is
/// rewritten to that selector and declaration in AO3's form: for a selector
/// `s` and a declaration `d`, each trimmed, non-empty, on one line and
/// without `;` (and `s` without braces, `d` not a lone `}`), the sheet
/// `s{`, `d`, `}` on three lines becomes `s {`, `    d`, `}`.
pub proof fn lemma_ao3_css_one_rule(sel: Seq<char>, decl: Seq<char>)
    requires
        sel.len() > 0,
        trim(sel) == sel,
        free_of(sel, '\n') && free_of(sel, ';') && free_of(sel, '{') && free_of(sel, '}'),
        decl.len() > 0,
        trim(decl) == decl,
        free_of(decl, '\n') && free_of(decl, ';'),
        decl != "}"@,
    ensures
        ao3_css(sel + "{\n"@ + decl + "\n}"@) == sel + " {\n    "@ + decl + "\n}"@,
{
    reveal_strlit(";");
    reveal_strlit("\n");
    reveal_strlit("{\n");
    reveal_strlit("\n}");
    reveal_strlit("}");
    reveal_strlit(" {\n    ");
    reveal_strlit("\n}\n");
    let css = sel + "{\n"@ + decl + "\n}"@;
    let pat = ";"@;
    let nl = "\n"@;
    assert(pat =~= seq![';']);
    // No `;`: the text is read as it stands.
    assert forall|i: int| 0 <= i < css.len() implies #[trigger] css[i] != pat[0] by {
        if i < sel.len() {
            assert(css[i] == sel[i]);
        } else if sel.len() + 2 <= i < sel.len() + 2 + decl.len() {
            assert(css[i] == decl[i - sel.len() - 2]);
        }
    }
    lemma_replace_absent(css, pat, nl);
    // Its three lines.
    let l0 = sel.push('{');
    let l2 = seq!['}'];
    assert(css =~= l0 + seq!['\n'] + (decl + seq!['\n'] + l2));
    lemma_split_concat(l0, decl + seq!['\n'] + l2, '\n');
    lemma_split_concat(decl, l2, '\n');
    assert(free_of(l0, '\n')) by {
        assert forall|i: int| 0 <= i < l0.len() implies #[trigger] l0[i] != '\n' by {
            if i < sel.len() {
                assert(l0[i] == sel[i]);
            }
        }
    }
    lemma_split_single(l0, '\n');
    lemma_split_single(decl, '\n');
    lemma_split_single(l2, '\n');
    let lines = seq![l0, decl, l2];
    assert(split(css, '\n') =~= lines);
    // The first line opens the rule's declarations.
    lemma_trimmed_ends(sel);
    assert(trim_start(l0) == l0);
    assert(l0.drop_last() =~= sel);
    assert(trim_end(l0) == l0);
    assert(trim(l0) == l0);
    assert(trim_end_char(l0, '{') == trim_end_char(sel, '{'));
    assert(trim_end_char(sel, '{') == sel);
    let one = seq![l0];
    let two = seq![l0, decl];
    assert(one.drop_last() =~= Seq::<Seq<char>>::empty());
    assert(two.drop_last() =~= one);
    assert(lines.drop_last() =~= two);
    assert(run(Seq::<Seq<char>>::empty()) == (CssState::Outside, Seq::<char>::empty()));
    assert(one.last() == l0);
    assert(l0.last() == '{');
    assert(step(CssState::Outside, l0) == (CssState::Declaration(sel), Seq::<char>::empty()));
    assert(run(one) == (CssState::Declaration(sel), Seq::<char>::empty() + Seq::<char>::empty()));
    assert(Seq::<char>::empty() + Seq::<char>::empty() =~= Seq::<char>::empty());
    // The second writes the rule, the third closes it.
    let rule = decl_rule(sel, decl);
    assert(run(two) == (CssState::Declaration(sel), Seq::<char>::empty() + rule));
    assert(Seq::<char>::empty() + rule =~= rule);
    assert(trim(l2) =~= l2) by {
        assert(trim_start(l2) == l2);
        assert(trim_end(l2) == l2);
    }
    assert(l2 =~= "}"@);
    assert(lines.last() == l2);
    assert(step(CssState::Declaration(sel), l2) == (CssState::Outside, Seq::<char>::empty()));
    assert(run(lines) == (CssState::Outside, rule + Seq::<char>::empty()));
    assert(rule + Seq::<char>::empty() =~= rule);
    // Trimming drops the final line break only.
    let out = sel + " {\n    "@ + decl + "\n}"@;
    assert(rule =~= out.push('\n'));
    assert(trim_start(rule) == rule);
    assert(rule.drop_last() =~= out);
    assert(trim_end(out) == out);
    assert(trim_end(rule) == out);
}

} // verus!
