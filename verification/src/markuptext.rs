//! Markup text that the builder holds never ends in a `<rust>` or
//! `</rust>` tag when its tokens come from the lexer: such a tag is always
//! read as a tag before its characters could join the text.

use vstd::prelude::*;
use crate::htmlcontentbuilder::{
    build_from, cleared, ends_in_rust_tag, ends_with, include_at, include_outcome,
    lemma_include_scan, process_outcome, tag_end_at, tag_start_at, text_node_pieces, with_text,
    BuildOutcome, BuilderState, CONTENT_DECLARATION,
};
use crate::htmlcontentbuilder::{include_scan, ErrorView};
use crate::text::trimmed;
use crate::htmlquotes::{
    lemma_markup_pieces_within, markup_pieces, substring_of, CodePiece,
};
use crate::htmllexer::{
    is_other_char, joined, token_well_formed, tokens_apart, tokens_well_formed, TokenType,
    TokenView,
};
use crate::text::is_white_space;

verus! {

proof fn lemma_ends_with_last(s: Seq<char>, w: Seq<char>)
    requires
        ends_with(s, w),
        w.len() > 0,
    ensures
        s.len() > 0,
        s.last() == w.last(),
{
    assert(s.subrange(s.len() - w.len(), s.len() as int)[w.len() - 1] == s.last());
}

proof fn lemma_ends_with_cut(x: Seq<char>, y: Seq<char>, w: Seq<char>)
    requires
        ends_with(x + y, w),
        y.len() <= w.len(),
    ensures
        y == w.subrange(w.len() - y.len(), w.len() as int),
        ends_with(x, w.subrange(0, w.len() - y.len())),
{
    let s = x + y;
    let n = w.len() as int;
    let k = y.len() as int;
    let tail = s.subrange(s.len() - n, s.len() as int);
    assert(tail == w);
    assert forall|i: int| 0 <= i < k implies y[i] == w[n - k + i] by {
        assert(s[x.len() + i] == y[i]);
        assert(tail[n - k + i] == s[s.len() - n + n - k + i]);
    }
    assert(y =~= w.subrange(n - k, n));
    assert forall|i: int| 0 <= i < n - k implies x.subrange(x.len() - (n - k), x.len() as int)[i]
        == w[i] by {
        assert(s[x.len() - (n - k) + i] == x[x.len() - (n - k) + i]);
        assert(tail[i] == s[s.len() - n + i]);
    }
    assert(x.subrange(x.len() - (n - k), x.len() as int) =~= w.subrange(0, n - k));
}

proof fn lemma_ends_with_long(y: Seq<char>, x: Seq<char>, w: Seq<char>)
    requires
        ends_with(x + y, w),
        y.len() > w.len(),
    ensures
        ends_with(y, w),
{
    let s = x + y;
    assert(y.subrange(y.len() - w.len(), y.len() as int) =~= s.subrange(
        s.len() - w.len(),
        s.len() as int,
    ));
}

/// Whitespace just before a non-whitespace suffix is impossible: the
/// whitespace must be empty.
proof fn lemma_no_white_space_before(x: Seq<char>, b: Seq<char>, w: Seq<char>)
    requires
        ends_with(x + b, w),
        w.len() > 0,
        !is_white_space(w.last()),
        forall|k: int| 0 <= k < b.len() ==> is_white_space(#[trigger] b[k]),
    ensures
        b.len() == 0,
        ends_with(x, w),
{
    if b.len() > 0 {
        lemma_ends_with_last(x + b, w);
        assert((x + b).last() == b.last());
        assert(is_white_space(b[b.len() - 1]));
    }
    assert(x + b == x);
}

pub proof fn lemma_joined_peel(ts: Seq<TokenView>, start: int, m: int)
    requires
        0 <= start < m <= ts.len(),
    ensures
        joined(ts.subrange(start, m)) == joined(ts.subrange(start, m - 1)) + ts[m - 1].text(),
{
    let s = ts.subrange(start, m);
    assert(s.drop_last() =~= ts.subrange(start, m - 1));
    assert(s.last() == ts[m - 1]);
}

/// The last token of a run whose text ends with `w` (whose last character
/// is not whitespace) has no whitespace after it, and its value ends with
/// that character.
proof fn lemma_last_token(ts: Seq<TokenView>, start: int, m: int, w: Seq<char>)
    requires
        tokens_well_formed(ts),
        0 <= start <= m <= ts.len(),
        ends_with(joined(ts.subrange(start, m)), w),
        w.len() > 0,
        !is_white_space(w.last()),
    ensures
        start < m,
        ts[m - 1].white_space_after.len() == 0,
        ts[m - 1].value.len() > 0,
        ts[m - 1].value.last() == w.last(),
        joined(ts.subrange(start, m)) == joined(ts.subrange(start, m - 1))
            + ts[m - 1].white_space_before + ts[m - 1].value,
{
    if m == start {
        assert(ts.subrange(start, m).len() == 0);
        assert(joined(ts.subrange(start, m)) == Seq::<char>::empty());
    }
    lemma_joined_peel(ts, start, m);
    let t = ts[m - 1];
    assert(token_well_formed(t));
    let y = joined(ts.subrange(start, m - 1));
    let x = joined(ts.subrange(start, m));
    assert(x == (y + t.white_space_before + t.value) + t.white_space_after);
    lemma_ends_with_last(x, w);
    if t.white_space_after.len() > 0 {
        assert(x.last() == t.white_space_after.last());
        assert(is_white_space(t.white_space_after[t.white_space_after.len() - 1]));
    }
    assert(y + t.white_space_before + t.value + t.white_space_after == y + t.white_space_before
        + t.value);
    assert(x.last() == t.value.last());
}

/// A token whose value ends with a delimiter is that one delimiter.
proof fn lemma_delimiter_token(t: TokenView, c: char)
    requires
        token_well_formed(t),
        t.value.len() > 0,
        t.value.last() == c,
        !is_other_char(c),
    ensures
        t.value == seq![c],
        t.token_type != TokenType::OtherText,
{
    if t.token_type == TokenType::OtherText {
        assert(is_other_char(t.value[t.value.len() - 1]));
    }
    assert(t.value =~= seq![c]);
}

/// A run of tokens whose text ends with `pre` followed by `rust` has the
/// token `rust` last, and the text before it ends with `pre`.
proof fn lemma_name_before(ts: Seq<TokenView>, start: int, m: int, pre: Seq<char>)
    requires
        tokens_well_formed(ts),
        0 <= start <= m <= ts.len(),
        pre.len() > 0,
        forall|k: int| 0 <= k < pre.len() ==> !is_other_char(#[trigger] pre[k]),
        ends_with(joined(ts.subrange(start, m)), pre + "rust"@),
    ensures
        start < m - 1,
        ts[m - 1].value == "rust"@,
        ends_with(joined(ts.subrange(start, m - 1)), pre),
{
    reveal_strlit("rust");
    let w = pre + "rust"@;
    assert(w.last() == 't');
    lemma_last_token(ts, start, m, w);
    let t2 = ts[m - 1];
    assert(token_well_formed(t2));
    if t2.token_type != TokenType::OtherText {
        assert(t2.value.last() == t2.value[0]);
    }
    assert(t2.token_type == TokenType::OtherText);
    let v = t2.value;
    let n = v.len() as int;
    let y = joined(ts.subrange(start, m - 1));
    let yb = y + t2.white_space_before;
    assert(joined(ts.subrange(start, m)) == yb + v);
    if n > w.len() {
        lemma_ends_with_long(v, yb, w);
        assert(v.subrange(n - w.len(), n)[0] == w[0]);
        assert(!is_other_char(w[0]));
        assert(is_other_char(v[n - w.len()]));
    } else {
        lemma_ends_with_cut(yb, v, w);
        if n >= 5 {
            assert(v[n - 5] == w[w.len() - 5]);
            assert(w[w.len() - 5] == pre[pre.len() - 1]);
            assert(is_other_char(v[n - 5]));
        } else if n == 4 {
            assert(v =~= "rust"@);
            assert(w.subrange(0, w.len() - 4) =~= pre);
            lemma_no_white_space_before(y, t2.white_space_before, pre);
            lemma_ends_with_last(y, pre);
            if m - 1 == start {
                assert(ts.subrange(start, m - 1).len() == 0);
                assert(y == Seq::<char>::empty());
            }
        } else {
            let w2 = w.subrange(0, w.len() - n);
            assert(w2.last() == w[w.len() - n - 1]);
            assert(is_other_char(w2.last()) && !is_white_space(w2.last()));
            lemma_no_white_space_before(y, t2.white_space_before, w2);
            lemma_last_token(ts, start, m - 1, w2);
            let t1 = ts[m - 2];
            assert(token_well_formed(t1));
            if t1.token_type != TokenType::OtherText {
                assert(t1.value.last() == t1.value[0]);
            }
            assert(tokens_apart(ts[m - 2], ts[m - 1]));
        }
    }
}

/// No `<rust>` or `</rust>` tag starts among the tokens from `start` to
/// `j`.
pub open spec fn no_rust_tag_between(ts: Seq<TokenView>, start: int, j: int) -> bool {
    forall|k: int| start <= k < j ==> !tag_start_at(ts, "rust"@, k) && !tag_end_at(ts, "rust"@, k)
}

/// The text of a run of lexed tokens up to a `>` token cannot end in a
/// `<rust>` or `</rust>` tag when no such tag starts in the run.
proof fn lemma_tag_not_ending_at(ts: Seq<TokenView>, start: int, m: int, w: Seq<char>)
    requires
        tokens_well_formed(ts),
        0 <= start < m <= ts.len(),
        no_rust_tag_between(ts, start, m),
        ts[m - 1].value == seq!['>'],
        w == "<rust>"@ || w == "</rust>"@,
    ensures
        !ends_with(joined(ts.subrange(start, m - 1)) + ts[m - 1].white_space_before + seq!['>'], w),
{
    reveal_strlit("<rust>");
    reveal_strlit("</rust>");
    reveal_strlit("rust");
    let t3 = ts[m - 1];
    assert(token_well_formed(t3));
    let y = joined(ts.subrange(start, m - 1));
    if !ends_with(y + t3.white_space_before + seq!['>'], w) {
        return;
    }
    lemma_ends_with_cut(y + t3.white_space_before, seq!['>'], w);
    if w == "<rust>"@ {
        let w5 = w.subrange(0, 5);
        assert(w5.last() == 't');
        lemma_no_white_space_before(y, t3.white_space_before, w5);
        assert(w5 =~= seq!['<'] + "rust"@);
        lemma_name_before(ts, start, m - 1, seq!['<']);
        lemma_last_token(ts, start, m - 2, seq!['<']);
        lemma_delimiter_token(ts[m - 3], '<');
        assert(tag_start_at(ts, "rust"@, m - 3));
    } else {
        let w6 = w.subrange(0, 6);
        assert(w6.last() == 't');
        lemma_no_white_space_before(y, t3.white_space_before, w6);
        assert(w6 =~= seq!['<', '/'] + "rust"@);
        lemma_name_before(ts, start, m - 1, seq!['<', '/']);
        let w2 = seq!['<', '/'];
        lemma_last_token(ts, start, m - 2, w2);
        let t1 = ts[m - 3];
        assert(token_well_formed(t1));
        lemma_delimiter_token(t1, '/');
        let y1 = joined(ts.subrange(start, m - 3));
        assert(joined(ts.subrange(start, m - 2)) == (y1 + t1.white_space_before) + seq!['/']);
        lemma_ends_with_cut(y1 + t1.white_space_before, seq!['/'], w2);
        assert(w2.subrange(0, 1) =~= seq!['<']);
        lemma_no_white_space_before(y1, t1.white_space_before, seq!['<']);
        lemma_last_token(ts, start, m - 3, seq!['<']);
        lemma_delimiter_token(ts[m - 4], '<');
        assert(tag_end_at(ts, "rust"@, m - 4));
    }
}

/// Law: the text of a run of lexed tokens among which no `<rust>` or
/// `</rust>` tag starts does not end in such a tag.
pub proof fn lemma_run_has_no_rust_tag(ts: Seq<TokenView>, start: int, j: int)
    requires
        tokens_well_formed(ts),
        0 <= start <= j <= ts.len(),
        no_rust_tag_between(ts, start, j),
    ensures
        !ends_in_rust_tag(joined(ts.subrange(start, j))),
{
    reveal_strlit("<rust>");
    reveal_strlit("</rust>");
    let x = joined(ts.subrange(start, j));
    if ends_in_rust_tag(x) {
        let w: Seq<char> = if ends_with(x, "<rust>"@) {
            "<rust>"@
        } else {
            "</rust>"@
        };
        assert(w.last() == '>');
        lemma_last_token(ts, start, j, w);
        lemma_delimiter_token(ts[j - 1], '>');
        lemma_tag_not_ending_at(ts, start, j, w);
        assert(x == joined(ts.subrange(start, j - 1)) + ts[j - 1].white_space_before + seq!['>']);
    }
}

/// `w` stands somewhere in `s`.
pub open spec fn occurs_in(w: Seq<char>, s: Seq<char>) -> bool {
    exists|p: int| 0 <= p && p + w.len() <= s.len() && #[trigger] s.subrange(p, p + w.len()) == w
}

/// The token whose text holds the character at `q` of a run's text.
proof fn lemma_joined_locate(ts: Seq<TokenView>, start: int, j: int, q: int) -> (m: int)
    requires
        0 <= start <= j <= ts.len(),
        0 <= q < joined(ts.subrange(start, j)).len(),
    ensures
        start < m <= j,
        joined(ts.subrange(start, m - 1)).len() <= q < joined(ts.subrange(start, m)).len(),
        joined(ts.subrange(start, m)).len() <= joined(ts.subrange(start, j)).len(),
        joined(ts.subrange(start, j)).subrange(0, joined(ts.subrange(start, m)).len() as int)
            == joined(ts.subrange(start, m)),
    decreases j,
{
    if j == start {
        assert(ts.subrange(start, j).len() == 0);
        assert(joined(ts.subrange(start, j)) == Seq::<char>::empty());
        assert(false);
        j
    } else {
        lemma_joined_peel(ts, start, j);
        let y = joined(ts.subrange(start, j - 1));
        let x = joined(ts.subrange(start, j));
        if q < y.len() {
            let m = lemma_joined_locate(ts, start, j - 1, q);
            let l = joined(ts.subrange(start, m)).len() as int;
            assert(x.subrange(0, l) =~= y.subrange(0, l));
            m
        } else {
            assert(x.subrange(0, x.len() as int) == x);
            j
        }
    }
}

/// Law: the text of a run of lexed tokens among which no `<rust>` or
/// `</rust>` tag starts holds no such tag anywhere.
pub proof fn lemma_run_holds_no_rust_tag(ts: Seq<TokenView>, start: int, j: int)
    requires
        tokens_well_formed(ts),
        0 <= start <= j <= ts.len(),
        no_rust_tag_between(ts, start, j),
    ensures
        !occurs_in("<rust>"@, joined(ts.subrange(start, j))),
        !occurs_in("</rust>"@, joined(ts.subrange(start, j))),
{
    reveal_strlit("<rust>");
    reveal_strlit("</rust>");
    let x = joined(ts.subrange(start, j));
    if occurs_in("<rust>"@, x) || occurs_in("</rust>"@, x) {
        let w: Seq<char> = if occurs_in("<rust>"@, x) {
            "<rust>"@
        } else {
            "</rust>"@
        };
        let p = choose|p: int|
            0 <= p && p + w.len() <= x.len() && #[trigger] x.subrange(p, p + w.len()) == w;
        let q = p + w.len() - 1;
        assert(x[q] == x.subrange(p, p + w.len())[w.len() - 1]);
        assert(x[q] == '>');
        let m = lemma_joined_locate(ts, start, j, q);
        lemma_joined_peel(ts, start, m);
        let y = joined(ts.subrange(start, m - 1));
        let t = ts[m - 1];
        assert(token_well_formed(t));
        let d = t.text();
        let xm = joined(ts.subrange(start, m));
        assert(xm == y + d);
        assert(x.subrange(0, xm.len() as int)[q] == x[q]);
        assert(xm[q] == x[q]);
        let r = q - y.len();
        assert(d[r] == '>');
        let b = t.white_space_before;
        let v = t.value;
        if r < b.len() {
            assert(d[r] == b[r]);
            assert(is_white_space(b[r]));
        }
        if r >= b.len() + v.len() {
            assert(d[r] == t.white_space_after[r - b.len() - v.len()]);
            assert(is_white_space(t.white_space_after[r - b.len() - v.len()]));
        }
        assert(v[r - b.len()] == '>');
        if t.token_type == TokenType::OtherText {
            assert(is_other_char(v[r - b.len()]));
        }
        assert(v == seq!['>']);
        assert(r == b.len());
        let pre = y + b + seq!['>'];
        assert(d == b + v + t.white_space_after);
        assert(pre =~= xm.subrange(0, q + 1));
        assert(x.subrange(0, q + 1) =~= x.subrange(0, xm.len() as int).subrange(0, q + 1));
        assert(pre =~= x.subrange(0, q + 1));
        assert(pre.subrange(pre.len() - w.len(), pre.len() as int) =~= x.subrange(p, p + w.len()));
        lemma_tag_not_ending_at(ts, start, m, w);
    }
}

/// `text` is the text of the tokens from `start` to `i`, among which no
/// `<rust>` or `</rust>` tag starts.
pub open spec fn text_run(ts: Seq<TokenView>, start: int, i: int, text: Seq<char>) -> bool {
    &&& 0 <= start <= i <= ts.len()
    &&& text == joined(ts.subrange(start, i))
    &&& no_rust_tag_between(ts, start, i)
}

proof fn lemma_no_halt_from(
    ts: Seq<TokenView>,
    i: int,
    st: BuilderState,
    ps: Seq<CodePiece>,
    answers: Seq<bool>,
    start: int,
)
    requires
        tokens_well_formed(ts),
        0 <= i,
        st.current_text.len() == 0 || (st.is_markup && text_run(ts, start, i, st.current_text)),
    ensures
        !(build_from(ts, i, st, ps, answers) is Halted),
    decreases ts.len() - i,
{
    reveal(build_from);
    if i >= ts.len() {
    } else if include_at(ts, i) {
        if st.is_markup {
            if let Ok(q) = text_node_pieces(st) {
                let s1 = BuilderState { is_include_tag: true, ..cleared(st) };
                let s2 = BuilderState { is_include_tag: false, ..s1 };
                if let Ok((j, inc)) = include_outcome(ts, i, answers.len() > 0 && answers[0]) {
                    lemma_include_scan(ts, i + 2, Seq::empty());
                    lemma_no_halt_from(ts, j, s2, ps + q + seq![CodePiece::Include(inc)], answers.drop_first(), j);
                }
            }
        }
    } else if tag_start_at(ts, "rust"@, i) {
        let s1 = BuilderState { is_markup: false, rust_node_count: st.rust_node_count + 1, ..st };
        if let Ok(q) = text_node_pieces(s1) {
            lemma_no_halt_from(ts, i + 3, cleared(s1), ps + q, answers, i + 3);
        }
    } else if tag_end_at(ts, "rust"@, i) {
        if st.rust_node_count != 0 {
            let s1 = BuilderState { is_markup: true, rust_node_count: st.rust_node_count - 1, ..st };
            if let Ok(q) = text_node_pieces(s1) {
                lemma_no_halt_from(ts, i + 4, cleared(s1), ps + q, answers, i + 4);
            }
        }
    } else if tag_start_at(ts, "markup"@, i) && !st.is_markup {
        let s1 = BuilderState { is_markup: true, ..st };
        if let Ok(q) = text_node_pieces(s1) {
            lemma_no_halt_from(ts, i + 3, cleared(s1), ps + q, answers, i + 3);
        }
    } else if tag_end_at(ts, "markup"@, i) {
        let s1 = BuilderState { is_markup: false, ..st };
        if let Ok(q) = text_node_pieces(s1) {
            lemma_no_halt_from(ts, i + 4, cleared(s1), ps + q, answers, i + 4);
        }
    } else if st.is_markup {
        let s1 = with_text(st, ts[i].text(), ts[i].line_number);
        let start2 = if st.current_text.len() == 0 {
            i
        } else {
            start
        };
        if st.current_text.len() == 0 {
            assert(ts.subrange(i, i).len() == 0);
            assert(joined(ts.subrange(i, i)) == Seq::<char>::empty());
            assert(st.current_text =~= Seq::<char>::empty());
        }
        lemma_joined_peel(ts, start2, i + 1);
        assert(s1.current_text == joined(ts.subrange(start2, i + 1)));
        lemma_run_has_no_rust_tag(ts, start2, i + 1);
        lemma_no_halt_from(ts, i + 1, s1, ps, answers, start2);
    } else {
        lemma_no_halt_from(ts, i + 1, st, ps + seq![CodePiece::Code(ts[i].text())], answers, start);
    }
}

/// Law: processing well-formed tokens (as the lexer makes them) from a
/// state with no pending markup text never comes to markup text that ends
/// in a `<rust>` or `</rust>` tag, whatever the include checks answer.
pub proof fn lemma_lexed_tokens_never_halt(st: BuilderState, ts: Seq<TokenView>)
    requires
        tokens_well_formed(ts),
        st.current_text.len() == 0,
    ensures
        forall|answers: Seq<bool>| !(#[trigger] process_outcome(st, ts, answers) is Halted),
{
    assert forall|answers: Seq<bool>| !(#[trigger] process_outcome(st, ts, answers) is Halted) by {
        lemma_no_halt_from(ts, 0, st, seq![CodePiece::Code(CONTENT_DECLARATION@)], answers, 0);
    }
}


/// No markup piece of `ps` holds a `<rust>` or `</rust>` tag.
pub open spec fn markup_free(ps: Seq<CodePiece>) -> bool {
    forall|k: int|
        0 <= k < ps.len() ==> ((#[trigger] ps[k]) is Markup ==> !occurs_in(
            "<rust>"@,
            ps[k]->Markup_0,
        ) && !occurs_in("</rust>"@, ps[k]->Markup_0))
}

proof fn lemma_occurs_in_part(w: Seq<char>, a: Seq<char>, s: Seq<char>)
    requires
        substring_of(a, s),
        occurs_in(w, a),
    ensures
        occurs_in(w, s),
{
    let x = choose|x: int| 0 <= x && x + a.len() <= s.len() && #[trigger] s.subrange(x, x + a.len()) == a;
    let p = choose|p: int| 0 <= p && p + w.len() <= a.len() && #[trigger] a.subrange(p, p + w.len()) == w;
    assert(s.subrange(x + p, x + p + w.len()) =~= a.subrange(p, p + w.len()));
}

proof fn lemma_markup_free_push(ps: Seq<CodePiece>, q: Seq<CodePiece>)
    requires
        markup_free(ps),
        markup_free(q),
    ensures
        markup_free(ps + q),
{
    assert forall|k: int| 0 <= k < (ps + q).len() && (#[trigger] (ps + q)[k]) is Markup implies (
        !occurs_in("<rust>"@, (ps + q)[k]->Markup_0) && !occurs_in(
        "</rust>"@,
        (ps + q)[k]->Markup_0,
    )) by {
        if k >= ps.len() {
            assert((ps + q)[k] == q[k - ps.len()]);
        } else {
            assert((ps + q)[k] == ps[k]);
        }
    }
}

/// The pieces for pending markup that is empty or the text of a run of
/// lexed tokens with no `<rust>` or `</rust>` tag hold no such tag.
proof fn lemma_text_pieces_free(ts: Seq<TokenView>, st: BuilderState, start: int, i: int)
    requires
        tokens_well_formed(ts),
        st.current_text.len() == 0 || text_run(ts, start, i, st.current_text),
    ensures
        text_node_pieces(st) is Ok ==> markup_free(text_node_pieces(st)->Ok_0),
{
    if st.current_text.len() > 0 {
        lemma_run_holds_no_rust_tag(ts, start, i);
        lemma_markup_pieces_within(st.current_text, st.first_text_line);
        if let Ok(q) = markup_pieces(st.current_text, st.first_text_line) {
            assert forall|k: int| 0 <= k < q.len() && (#[trigger] q[k]) is Markup implies (
                !occurs_in("<rust>"@, q[k]->Markup_0) && !occurs_in(
                "</rust>"@,
                q[k]->Markup_0,
            )) by {
                if q[k] is Markup {
                    if occurs_in("<rust>"@, q[k]->Markup_0) {
                        lemma_occurs_in_part("<rust>"@, q[k]->Markup_0, st.current_text);
                    }
                    if occurs_in("</rust>"@, q[k]->Markup_0) {
                        lemma_occurs_in_part("</rust>"@, q[k]->Markup_0, st.current_text);
                    }
                }
            }
        }
    }
}

proof fn lemma_markup_free_from(
    ts: Seq<TokenView>,
    i: int,
    st: BuilderState,
    ps: Seq<CodePiece>,
    answers: Seq<bool>,
    start: int,
)
    requires
        tokens_well_formed(ts),
        0 <= i,
        st.current_text.len() == 0 || (st.is_markup && text_run(ts, start, i, st.current_text)),
        markup_free(ps),
    ensures
        build_from(ts, i, st, ps, answers) is Finished ==> markup_free(
            build_from(ts, i, st, ps, answers)->Finished_1,
        ),
        build_from(ts, i, st, ps, answers) is Failed ==> markup_free(build_from(ts, i, st, ps, answers)->Failed_1),
    decreases ts.len() - i,
{
    reveal(build_from);
    lemma_text_pieces_free(ts, st, start, i);
    if i >= ts.len() {
        if let Ok(q) = text_node_pieces(st) {
            lemma_markup_free_push(ps, q);
        }
    } else if include_at(ts, i) {
        if st.is_markup {
            if let Ok(q) = text_node_pieces(st) {
                lemma_markup_free_push(ps, q);
                let s1 = BuilderState { is_include_tag: true, ..cleared(st) };
                let s2 = BuilderState { is_include_tag: false, ..s1 };
                if let Ok((j, inc)) = include_outcome(ts, i, answers.len() > 0 && answers[0]) {
                    lemma_include_scan(ts, i + 2, Seq::empty());
                    let inc_piece = seq![CodePiece::Include(inc)];
                    assert(markup_free(inc_piece));
                    lemma_markup_free_push(ps + q, inc_piece);
                    lemma_markup_free_from(ts, j, s2, ps + q + inc_piece, answers.drop_first(), j);
                }
            }
        }
    } else if tag_start_at(ts, "rust"@, i) {
        let s1 = BuilderState { is_markup: false, rust_node_count: st.rust_node_count + 1, ..st };
        if let Ok(q) = text_node_pieces(s1) {
            assert(text_node_pieces(s1) == text_node_pieces(st));
            lemma_markup_free_push(ps, q);
            lemma_markup_free_from(ts, i + 3, cleared(s1), ps + q, answers, i + 3);
        }
    } else if tag_end_at(ts, "rust"@, i) {
        if st.rust_node_count != 0 {
            let s1 = BuilderState { is_markup: true, rust_node_count: st.rust_node_count - 1, ..st };
            if let Ok(q) = text_node_pieces(s1) {
                assert(text_node_pieces(s1) == text_node_pieces(st));
                lemma_markup_free_push(ps, q);
                lemma_markup_free_from(ts, i + 4, cleared(s1), ps + q, answers, i + 4);
            }
        }
    } else if tag_start_at(ts, "markup"@, i) && !st.is_markup {
        let s1 = BuilderState { is_markup: true, ..st };
        if let Ok(q) = text_node_pieces(s1) {
            assert(text_node_pieces(s1) == text_node_pieces(st));
            lemma_markup_free_push(ps, q);
            lemma_markup_free_from(ts, i + 3, cleared(s1), ps + q, answers, i + 3);
        }
    } else if tag_end_at(ts, "markup"@, i) {
        let s1 = BuilderState { is_markup: false, ..st };
        if let Ok(q) = text_node_pieces(s1) {
            assert(text_node_pieces(s1) == text_node_pieces(st));
            lemma_markup_free_push(ps, q);
            lemma_markup_free_from(ts, i + 4, cleared(s1), ps + q, answers, i + 4);
        }
    } else if st.is_markup {
        let s1 = with_text(st, ts[i].text(), ts[i].line_number);
        let start2 = if st.current_text.len() == 0 {
            i
        } else {
            start
        };
        if st.current_text.len() == 0 {
            assert(ts.subrange(i, i).len() == 0);
            assert(joined(ts.subrange(i, i)) == Seq::<char>::empty());
            assert(st.current_text =~= Seq::<char>::empty());
        }
        lemma_joined_peel(ts, start2, i + 1);
        assert(s1.current_text == joined(ts.subrange(start2, i + 1)));
        lemma_markup_free_from(ts, i + 1, s1, ps, answers, start2);
    } else {
        let code = seq![CodePiece::Code(ts[i].text())];
        assert(markup_free(code));
        lemma_markup_free_push(ps, code);
        lemma_markup_free_from(ts, i + 1, st, ps + code, answers, start);
    }
}

/// Law: processing well-formed tokens (as the lexer makes them) from a
/// state with no pending markup text writes no markup that holds a
/// `<rust>` or `</rust>` tag, whatever the include checks answer: such
/// tags always switch the mode.
pub proof fn lemma_markup_never_holds_rust_tag(st: BuilderState, ts: Seq<TokenView>)
    requires
        tokens_well_formed(ts),
        st.current_text.len() == 0,
    ensures
        forall|answers: Seq<bool>|
            #![trigger process_outcome(st, ts, answers)]
            process_outcome(st, ts, answers) is Finished ==> markup_free(
                process_outcome(st, ts, answers)->Finished_1,
            ),
        forall|answers: Seq<bool>|
            #![trigger process_outcome(st, ts, answers)]
            process_outcome(st, ts, answers) is Failed ==> markup_free(
                process_outcome(st, ts, answers)->Failed_1,
            ),
{
    let decl = seq![CodePiece::Code(CONTENT_DECLARATION@)];
    assert(markup_free(decl));
    assert forall|answers: Seq<bool>| #![trigger process_outcome(st, ts, answers)]
        (process_outcome(st, ts, answers) is Finished ==> markup_free(
            process_outcome(st, ts, answers)->Finished_1,
        )) && (process_outcome(st, ts, answers) is Failed ==> markup_free(
            process_outcome(st, ts, answers)->Failed_1,
        )) by {
        lemma_markup_free_from(ts, 0, st, decl, answers, 0);
    }
}


/// How processing ends at the end of the tokens, in state `st` with
/// pieces `ps`: the pending markup is written, or its error is the error.
pub open spec fn run_end(st: BuilderState, ps: Seq<CodePiece>) -> BuildOutcome {
    match text_node_pieces(st) {
        Ok(q) => BuildOutcome::Finished(cleared(st), ps + q),
        Err(e) => BuildOutcome::Failed(st, ps, e),
    }
}

/// No include directive and no `<rust>`, `</rust>` or `</markup>` tag
/// starts in `ts` from `start` on.
pub open spec fn tag_free_from(ts: Seq<TokenView>, start: int) -> bool {
    forall|k: int|
        #![trigger tag_start_at(ts, "rust"@, k)]
        start <= k < ts.len() ==> !include_at(ts, k) && !tag_start_at(ts, "rust"@, k) && !tag_end_at(
            ts,
            "rust"@,
            k,
        ) && !tag_end_at(ts, "markup"@, k)
}

proof fn lemma_joined_not_empty(ts: Seq<TokenView>, start: int, i: int)
    requires
        tokens_well_formed(ts),
        0 <= start < i <= ts.len(),
    ensures
        joined(ts.subrange(start, i)).len() > 0,
{
    lemma_joined_peel(ts, start, i);
    assert(token_well_formed(ts[i - 1]));
    assert(ts[i - 1].value.len() > 0);
}

proof fn lemma_markup_run_from(
    ts: Seq<TokenView>,
    i: int,
    st: BuilderState,
    ps: Seq<CodePiece>,
    answers: Seq<bool>,
    start: int,
)
    requires
        tokens_well_formed(ts),
        0 <= start <= i <= ts.len(),
        st.is_markup,
        st.current_text == joined(ts.subrange(start, i)),
        start < i ==> st.first_text_line == ts[start].line_number,
        tag_free_from(ts, start),
    ensures
        build_from(ts, i, st, ps, answers) == run_end(
            BuilderState {
                current_text: joined(ts.subrange(start, ts.len() as int)),
                first_text_line: if start < ts.len() {
                    ts[start].line_number
                } else {
                    st.first_text_line
                },
                ..st
            },
            ps,
        ),
    decreases ts.len() - i,
{
    if start < i {
        lemma_joined_not_empty(ts, start, i);
    }
    if i < ts.len() {
        let s1 = with_text(st, ts[i].text(), ts[i].line_number);
        lemma_joined_peel(ts, start, i + 1);
        assert forall|k: int| start <= k < i + 1 implies !tag_start_at(ts, "rust"@, k) && !tag_end_at(
            ts,
            "rust"@,
            k,
        ) by {
            assert(start <= k < ts.len());
        }
        assert(no_rust_tag_between(ts, start, i + 1));
        lemma_run_has_no_rust_tag(ts, start, i + 1);
        assert(!tag_start_at(ts, "rust"@, i));
        assert(!include_at(ts, i));
        assert(!tag_end_at(ts, "rust"@, i));
        assert(!tag_end_at(ts, "markup"@, i));
        assert(build_from(ts, i, st, ps, answers) == build_from(ts, i + 1, s1, ps, answers)) by {
            reveal(build_from);
        }
        lemma_markup_run_from(ts, i + 1, s1, ps, answers, start);
    } else {
        assert(build_from(ts, i, st, ps, answers) == run_end(st, ps)) by {
            reveal(build_from);
        }
        assert(st == BuilderState {
            current_text: joined(ts.subrange(start, ts.len() as int)),
            first_text_line: if start < ts.len() {
                ts[start].line_number
            } else {
                st.first_text_line
            },
            ..st
        });
    }
}

/// Law: tokens (as the lexer makes them) with no include directive and no
/// `<rust>`, `</rust>` or `</markup>` tag are all one run of markup, a
/// `<markup>` tag among them included: from a builder in markup mode with
/// no pending text, processing them writes the declaration of the HTML
/// string and the code for the markup of their whole text, whose first
/// line is the first token's, or fails with that markup's error. The
/// include checks play no part.
pub proof fn lemma_tag_free_tokens_are_one_markup_run(st: BuilderState, ts: Seq<TokenView>, answers: Seq<bool>)
    requires
        tokens_well_formed(ts),
        ts.len() > 0,
        st.is_markup,
        st.current_text.len() == 0,
        tag_free_from(ts, 0),
    ensures
        markup_pieces(joined(ts), ts[0].line_number) is Ok ==> process_outcome(st, ts, answers)
            == BuildOutcome::Finished(
            BuilderState { first_text_line: ts[0].line_number, ..st },
            seq![CodePiece::Code(CONTENT_DECLARATION@)] + markup_pieces(joined(ts), ts[0].line_number)->Ok_0,
        ),
        markup_pieces(joined(ts), ts[0].line_number) is Err ==> process_outcome(st, ts, answers)
            == BuildOutcome::Failed(
            BuilderState { current_text: joined(ts), first_text_line: ts[0].line_number, ..st },
            seq![CodePiece::Code(CONTENT_DECLARATION@)],
            markup_pieces(joined(ts), ts[0].line_number)->Err_0,
        ),
{
    let decl = seq![CodePiece::Code(CONTENT_DECLARATION@)];
    assert(ts.subrange(0, 0).len() == 0);
    assert(joined(ts.subrange(0, 0)) == Seq::<char>::empty());
    assert(st.current_text =~= Seq::<char>::empty());
    lemma_markup_run_from(ts, 0, st, decl, answers, 0);
    assert(ts.subrange(0, ts.len() as int) == ts);
    lemma_joined_not_empty(ts, 0, ts.len() as int);
    assert(BuilderState { current_text: Seq::<char>::empty(), first_text_line: ts[0].line_number, ..st }
        == BuilderState { first_text_line: ts[0].line_number, ..st });
}

/// No include directive starts in `ts` from `start` on.
pub open spec fn include_free_from(ts: Seq<TokenView>, start: int) -> bool {
    forall|k: int| start <= k < ts.len() ==> !#[trigger] include_at(ts, k)
}

proof fn lemma_answers_unused_from(
    ts: Seq<TokenView>,
    i: int,
    st: BuilderState,
    ps: Seq<CodePiece>,
    a: Seq<bool>,
    b: Seq<bool>,
)
    requires
        0 <= i,
        include_free_from(ts, i),
    ensures
        build_from(ts, i, st, ps, a) == build_from(ts, i, st, ps, b),
    decreases ts.len() - i,
{
    reveal(build_from);
    if i < ts.len() {
        assert(!include_at(ts, i));
        if tag_start_at(ts, "rust"@, i) {
            let s1 = BuilderState { is_markup: false, rust_node_count: st.rust_node_count + 1, ..st };
            if let Ok(q) = text_node_pieces(s1) {
                lemma_answers_unused_from(ts, i + 3, cleared(s1), ps + q, a, b);
            }
        } else if tag_end_at(ts, "rust"@, i) {
            if st.rust_node_count != 0 {
                let s1 = BuilderState { is_markup: true, rust_node_count: st.rust_node_count - 1, ..st };
                if let Ok(q) = text_node_pieces(s1) {
                    lemma_answers_unused_from(ts, i + 4, cleared(s1), ps + q, a, b);
                }
            }
        } else if tag_start_at(ts, "markup"@, i) && !st.is_markup {
            let s1 = BuilderState { is_markup: true, ..st };
            if let Ok(q) = text_node_pieces(s1) {
                lemma_answers_unused_from(ts, i + 3, cleared(s1), ps + q, a, b);
            }
        } else if tag_end_at(ts, "markup"@, i) {
            let s1 = BuilderState { is_markup: false, ..st };
            if let Ok(q) = text_node_pieces(s1) {
                lemma_answers_unused_from(ts, i + 4, cleared(s1), ps + q, a, b);
            }
        } else if st.is_markup {
            let s1 = with_text(st, ts[i].text(), ts[i].line_number);
            lemma_answers_unused_from(ts, i + 1, s1, ps, a, b);
        } else {
            lemma_answers_unused_from(ts, i + 1, st, ps + seq![CodePiece::Code(ts[i].text())], a, b);
        }
    }
}

/// Law: without include directives, processing tokens ends the same
/// whatever the include checks would answer: it makes no check.
pub proof fn lemma_answers_unused_without_includes(
    st: BuilderState,
    ts: Seq<TokenView>,
    a: Seq<bool>,
    b: Seq<bool>,
)
    requires
        include_free_from(ts, 0),
    ensures
        process_outcome(st, ts, a) == process_outcome(st, ts, b),
{
    lemma_answers_unused_from(ts, 0, st, seq![CodePiece::Code(CONTENT_DECLARATION@)], a, b);
}

/// No include directive and no `<rust>`, `</rust>` or `</markup>` tag
/// starts in `ts` from `start` up to `m`.
pub open spec fn tag_free_between(ts: Seq<TokenView>, start: int, m: int) -> bool {
    forall|k: int|
        #![trigger tag_start_at(ts, "rust"@, k)]
        start <= k < m ==> !include_at(ts, k) && !tag_start_at(ts, "rust"@, k) && !tag_end_at(
            ts,
            "rust"@,
            k,
        ) && !tag_end_at(ts, "markup"@, k)
}

proof fn lemma_markup_run_until(
    ts: Seq<TokenView>,
    i: int,
    st: BuilderState,
    ps: Seq<CodePiece>,
    answers: Seq<bool>,
    start: int,
    m: int,
)
    requires
        tokens_well_formed(ts),
        0 <= start <= i <= m <= ts.len(),
        st.is_markup,
        st.current_text == joined(ts.subrange(start, i)),
        start < i ==> st.first_text_line == ts[start].line_number,
        tag_free_between(ts, start, m),
    ensures
        build_from(ts, i, st, ps, answers) == build_from(
            ts,
            m,
            BuilderState {
                current_text: joined(ts.subrange(start, m)),
                first_text_line: if start < m {
                    ts[start].line_number
                } else {
                    st.first_text_line
                },
                ..st
            },
            ps,
            answers,
        ),
    decreases m - i,
{
    if start < i {
        lemma_joined_not_empty(ts, start, i);
    }
    if i < m {
        let s1 = with_text(st, ts[i].text(), ts[i].line_number);
        lemma_joined_peel(ts, start, i + 1);
        assert forall|k: int| start <= k < i + 1 implies !tag_start_at(ts, "rust"@, k) && !tag_end_at(
            ts,
            "rust"@,
            k,
        ) by {
            assert(start <= k < m);
        }
        assert(no_rust_tag_between(ts, start, i + 1));
        lemma_run_has_no_rust_tag(ts, start, i + 1);
        assert(!tag_start_at(ts, "rust"@, i));
        assert(!include_at(ts, i));
        assert(!tag_end_at(ts, "rust"@, i));
        assert(!tag_end_at(ts, "markup"@, i));
        assert(build_from(ts, i, st, ps, answers) == build_from(ts, i + 1, s1, ps, answers)) by {
            reveal(build_from);
        }
        lemma_markup_run_until(ts, i + 1, s1, ps, answers, start, m);
    } else {
        assert(st == BuilderState {
            current_text: joined(ts.subrange(start, m)),
            first_text_line: if start < m {
                ts[start].line_number
            } else {
                st.first_text_line
            },
            ..st
        });
    }
}

/// Law: template order is kept around an include directive. Markup text
/// (as the lexer makes it, with no tag and no include) followed by an
/// include directive whose expression the check accepts is written first,
/// then the include: the pieces are the declaration, the markup's pieces
/// and then the include of the directive's trimmed text, and processing
/// goes on after the directive's `/>` with no pending markup. Where the
/// directive ends the tokens, that is how processing finishes.
pub proof fn lemma_markup_before_include_is_written_first(
    st: BuilderState,
    ts: Seq<TokenView>,
    m: int,
    answers: Seq<bool>,
)
    requires
        tokens_well_formed(ts),
        0 < m < ts.len(),
        st.is_markup,
        st.current_text.len() == 0,
        tag_free_between(ts, 0, m),
        include_at(ts, m),
        include_scan(ts, m + 2, Seq::empty()) is Some,
        trimmed(include_scan(ts, m + 2, Seq::empty())->Some_0.1).len() > 0,
        markup_pieces(joined(ts.subrange(0, m)), ts[0].line_number) is Ok,
    ensures
        ({
            let (j, code) = include_scan(ts, m + 2, Seq::empty())->Some_0;
            let after = BuilderState { is_include_tag: false, first_text_line: ts[0].line_number, ..st };
            let pieces = seq![CodePiece::Code(CONTENT_DECLARATION@)] + markup_pieces(
                joined(ts.subrange(0, m)),
                ts[0].line_number,
            )->Ok_0 + seq![CodePiece::Include(trimmed(code))];
            &&& process_outcome(st, ts, seq![true] + answers) == build_from(ts, j, after, pieces, answers)
            &&& j == ts.len() ==> process_outcome(st, ts, seq![true] + answers) == BuildOutcome::Finished(
                after,
                pieces,
            )
        }),
{
    let decl = seq![CodePiece::Code(CONTENT_DECLARATION@)];
    let a = seq![true] + answers;
    let (j, code) = include_scan(ts, m + 2, Seq::empty())->Some_0;
    let text = joined(ts.subrange(0, m));
    let q = markup_pieces(text, ts[0].line_number)->Ok_0;
    let after = BuilderState { is_include_tag: false, first_text_line: ts[0].line_number, ..st };
    let pieces = decl + q + seq![CodePiece::Include(trimmed(code))];
    assert(ts.subrange(0, 0).len() == 0);
    assert(joined(ts.subrange(0, 0)) == Seq::<char>::empty());
    assert(st.current_text =~= Seq::<char>::empty());
    lemma_markup_run_until(ts, 0, st, decl, a, 0, m);
    lemma_joined_not_empty(ts, 0, m);
    let sm = BuilderState { current_text: text, first_text_line: ts[0].line_number, ..st };
    assert(text_node_pieces(sm) == Ok::<Seq<CodePiece>, ErrorView>(q));
    assert(a.len() > 0 && a[0]);
    assert(a.drop_first() =~= answers);
    assert(include_outcome(ts, m, true) == Ok::<(int, Seq<char>), ErrorView>((j, trimmed(code))));
    assert(BuilderState { is_include_tag: false, ..BuilderState { is_include_tag: true, ..cleared(sm) } }
        == after);
    assert(build_from(ts, m, sm, decl, a) == build_from(ts, j, after, pieces, answers)) by {
        reveal(build_from);
    }
    if j == ts.len() {
        assert(text_node_pieces(after) == Ok::<Seq<CodePiece>, ErrorView>(Seq::empty()));
        assert(pieces + Seq::<CodePiece>::empty() == pieces);
        assert(cleared(after) == after);
        assert(build_from(ts, j, after, pieces, answers) == BuildOutcome::Finished(after, pieces)) by {
            reveal(build_from);
        }
    }
}

} // verus!
