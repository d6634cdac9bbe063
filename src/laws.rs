use crate::ast::{key_kind, Ast, Keyword, Kind, PropKey, PropValue, Widget};
use crate::ast::WidgetModel;
use crate::grammar::{
    apply_props, block_at, children_at, close_of, is_type_tag, keyword_of, parse_model, present,
    prop_items, props_at, skip_at, starts_children, text_at, value_at, widget_at, widget_rest,
    ParseError, Record,
};
use crate::numeral::{decimal_numeral, i32_numeral, u32_numeral};
use crate::parser::ast_result;
use crate::lexer::{first_cursor, is_space, lemma_first_cursor, lemma_lex_cover, tokenize, tokens_cover};
use crate::token::{TokenType, TokenView};
use vstd::prelude::*;
use vstd::utf8::*;

verus! {

/// A property that takes a number rejects a word that is no numeral of its
/// kind: reading it fails with an invalid-numeral error that names the
/// keyword and the word, and no default value stands in for it.
pub proof fn law_numeric_rejects_text(t: Seq<TokenView>, s: Seq<u8>, j: int, k: PropKey, kw_at: int)
    requires
        present(t, j),
        t[j].typ == TokenType::Word,
        (key_kind(k) == Kind::Unsigned && u32_numeral(encode_utf8(t[j].word)) is None) || (key_kind(k)
            == Kind::Signed && i32_numeral(encode_utf8(t[j].word)) is None) || (key_kind(k) == Kind::Real
            && decimal_numeral(encode_utf8(t[j].word)) is None),
    ensures
        value_at(t, s, j, Keyword::Prop(k), kw_at) == Err::<(PropKey, PropValue, int), ParseError>(
            ParseError::InvalidNumericLiteral {
                keyword: kw_at as usize,
                start: t[j].start as usize,
                end: t[j].end as usize,
            },
        ),
{
    reveal(value_at);
}

/// Absence and falsity stay apart. A flag keyword always sets its property
/// to true: the format has no way to write a false flag.
pub proof fn law_flag_is_true(t: Seq<TokenView>, s: Seq<u8>, j: int, k: PropKey, kw_at: int)
    requires
        key_kind(k) == Kind::Flag,
    ensures
        value_at(t, s, j, Keyword::Prop(k), kw_at) == Ok::<(PropKey, PropValue, int), ParseError>(
            (k, PropValue::Flag(true), j),
        ),
{
    reveal(value_at);
}

/// Absence and falsity stay apart. After a sequence of assignments over the
/// properties `m`, a property is present exactly when `m` had it or an
/// assignment names it; a property that nothing names stays absent.
pub proof fn law_absent_unless_assigned(m: Map<PropKey, PropValue>, a: Seq<(PropKey, PropValue)>, k: PropKey)
    ensures
        apply_props(m, a).contains_key(k) <==> (m.contains_key(k) || exists|i: int|
            0 <= i < a.len() && (#[trigger] a[i]).0 == k),
    decreases a.len(),
{
    if a.len() > 0 {
        law_absent_unless_assigned(m, a.drop_last(), k);
        if exists|i: int| 0 <= i < a.len() && (#[trigger] a[i]).0 == k {
            let i = choose|i: int| 0 <= i < a.len() && (#[trigger] a[i]).0 == k;
            if i < a.len() - 1 {
                assert(a.drop_last()[i] == a[i]);
            }
        }
        if exists|i: int| 0 <= i < a.drop_last().len() && (#[trigger] a.drop_last()[i]).0 == k {
            let i = choose|i: int| 0 <= i < a.drop_last().len() && (#[trigger] a.drop_last()[i]).0 == k;
            assert(a[i] == a.drop_last()[i]);
        }
    }
}

/// The number of tokens of kind `kind` at indices `from` up to `to`.
pub open spec fn count_kind(t: Seq<TokenView>, from: int, to: int, kind: TokenType) -> nat
    decreases to - from,
{
    if from >= to {
        0
    } else {
        count_kind(t, from, to - 1, kind) + if t[to - 1].typ == kind {
            1nat
        } else {
            0nat
        }
    }
}

/// Scanning from `j` with `depth` blocks open, the closing brace found is
/// preceded by as many closing braces as opening ones, less the depth it
/// started with, and is itself a closing brace.
proof fn lemma_close_of_balance(t: Seq<TokenView>, j: int, depth: nat, start: int)
    requires
        0 <= start <= j,
        depth >= 1,
        close_of(t, j, depth) is Some,
    ensures
        ({
            let c = close_of(t, j, depth)->0;
            &&& j <= c < t.len()
            &&& t[c].typ == TokenType::CloseBrace
            &&& count_kind(t, j, c, TokenType::OpenBrace) + depth - 1 == count_kind(
                t,
                j,
                c,
                TokenType::CloseBrace,
            )
            &&& forall|m: int|
                j <= m <= c ==> #[trigger] count_kind(t, j, m, TokenType::CloseBrace) <= count_kind(
                    t,
                    j,
                    m,
                    TokenType::OpenBrace,
                ) + depth - 1
        }),
    decreases t.len() - j,
{
    let c = close_of(t, j, depth)->0;
    let next: int = if t[j].typ == TokenType::OpenBrace {
        depth + 1int
    } else if t[j].typ == TokenType::CloseBrace {
        depth - 1int
    } else {
        depth as int
    };
    if t[j].typ == TokenType::OpenBrace {
        lemma_close_of_balance(t, j + 1, depth + 1, start);
        lemma_count_front(t, j, c, TokenType::OpenBrace);
        lemma_count_front(t, j, c, TokenType::CloseBrace);
    } else if t[j].typ == TokenType::CloseBrace {
        if depth > 1 {
            lemma_close_of_balance(t, j + 1, (depth - 1) as nat, start);
            lemma_count_front(t, j, c, TokenType::OpenBrace);
        lemma_count_front(t, j, c, TokenType::CloseBrace);
        }
    } else {
        lemma_close_of_balance(t, j + 1, depth, start);
        lemma_count_front(t, j, c, TokenType::OpenBrace);
        lemma_count_front(t, j, c, TokenType::CloseBrace);
    }
    assert forall|m: int| j <= m <= c implies #[trigger] count_kind(t, j, m, TokenType::CloseBrace)
        <= count_kind(t, j, m, TokenType::OpenBrace) + depth - 1 by {
        if m > j {
            lemma_count_front(t, j, m, TokenType::OpenBrace);
            lemma_count_front(t, j, m, TokenType::CloseBrace);
            assert(count_kind(t, j + 1, m, TokenType::CloseBrace) <= count_kind(
                t,
                j + 1,
                m,
                TokenType::OpenBrace,
            ) + next - 1);
        }
    }
}

/// Counting from `j` is counting the token at `j` and then from `j + 1`.
proof fn lemma_count_front(t: Seq<TokenView>, j: int, c: int, kind: TokenType)
    requires
        j < c,
    ensures
        count_kind(t, j, c, kind) == count_kind(t, j + 1, c, kind) + if t[j].typ == kind {
            1nat
        } else {
            0nat
        },
    decreases c - j,
{
    reveal_with_fuel(count_kind, 2);
    if j + 1 < c {
        lemma_count_front(t, j, c - 1, kind);
    }
}

/// Brace balance: a block that parses is a `{` token and the matching `}`
/// token. Between them stand as many `{` tokens as `}` tokens, no stretch
/// from the start holds more `}` than `{`, and the text returned is exactly
/// the source between the two braces, which it excludes.
pub proof fn law_block_balanced(t: Seq<TokenView>, s: Seq<u8>, i: int)
    requires
        block_at(t, s, i) is Ok,
    ensures
        ({
            let (x, e) = block_at(t, s, i)->Ok_0;
            &&& t[i].typ == TokenType::OpenBrace
            &&& t[e - 1].typ == TokenType::CloseBrace
            &&& 0 <= i < e - 1 < t.len()
            &&& count_kind(t, i + 1, e - 1, TokenType::OpenBrace) == count_kind(
                t,
                i + 1,
                e - 1,
                TokenType::CloseBrace,
            )
            &&& forall|m: int|
                i + 1 <= m <= e - 1 ==> #[trigger] count_kind(t, i + 1, m, TokenType::CloseBrace)
                    <= count_kind(t, i + 1, m, TokenType::OpenBrace)
            &&& x == decode_utf8(s.subrange(t[i].end, t[e - 1].start))
        }),
{
    lemma_close_of_balance(t, i + 1, 1, i + 1);
}

/// Parsing is a function of the text: two projects parsed from one text are
/// the same, field for field.
pub proof fn law_parse_twice(s: Seq<u8>, a: Ast, b: Ast)
    requires
        ast_result(Ok(a), parse_model(s)),
        ast_result(Ok(b), parse_model(s)),
    ensures
        a.same(&b),
{
    let m = parse_model(s)->Ok_0;
    Ast::lemma_same(&a, &b, m);
}

/// The tokens from `j` up to `to` that satisfy `f` and stand where no block
/// is open, `d` blocks being open at `j`.
pub open spec fn top_count(t: Seq<TokenView>, j: int, to: int, d: int, f: spec_fn(int) -> bool) -> nat
    decreases to - j,
{
    if j < 0 || j >= to || j >= t.len() {
        0
    } else {
        let here: nat = if d == 0 && f(j) {
            1
        } else {
            0
        };
        let next = if t[j].typ == TokenType::OpenBrace {
            d + 1
        } else if t[j].typ == TokenType::CloseBrace {
            d - 1
        } else {
            d
        };
        here + top_count(t, j + 1, to, next, f)
    }
}

/// `f` holds of words only.
pub open spec fn words_only(t: Seq<TokenView>, f: spec_fn(int) -> bool) -> bool {
    forall|k: int| #[trigger] f(k) ==> t[k].typ == TokenType::Word
}

/// The token at `k` is a type tag.
pub open spec fn tag_at(t: Seq<TokenView>) -> spec_fn(int) -> bool {
    |k: int| is_type_tag(t[k])
}

/// The token at `k` is a type tag, and so is the one after it.
pub open spec fn tag_pair_at(t: Seq<TokenView>) -> spec_fn(int) -> bool {
    |k: int| is_type_tag(t[k]) && is_type_tag(t[k + 1])
}

/// A block scan from `j` with `d` open to its closing brace at `c` hides
/// every token it passes from the count at depth `x` outside it.
proof fn lemma_close_hides(t: Seq<TokenView>, j: int, d: nat, x: int, to: int, f: spec_fn(int) -> bool)
    requires
        d >= 1,
        x >= 0,
        close_of(t, j, d) is Some,
        close_of(t, j, d)->0 < to <= t.len(),
        0 <= j,
    ensures
        j <= close_of(t, j, d)->0,
        top_count(t, j, to, d + x, f) == top_count(t, close_of(t, j, d)->0 + 1, to, x, f),
    decreases t.len() - j,
{
    if t[j].typ == TokenType::OpenBrace {
        lemma_close_hides(t, j + 1, d + 1, x, to, f);
    } else if t[j].typ == TokenType::CloseBrace {
        if d > 1 {
            lemma_close_hides(t, j + 1, (d - 1) as nat, x, to, f);
        }
    } else {
        lemma_close_hides(t, j + 1, d, x, to, f);
    }
}

/// A skipped block hides its tokens.
proof fn lemma_skip_hides(t: Seq<TokenView>, j: int, x: int, to: int, f: spec_fn(int) -> bool)
    requires
        present(t, j),
        t[j].typ == TokenType::OpenBrace,
        skip_at(t, j) is Ok,
        skip_at(t, j)->Ok_0 <= to <= t.len(),
        x >= 0,
    ensures
        j < skip_at(t, j)->Ok_0,
        top_count(t, j, to, x, f) == top_count(t, skip_at(t, j)->Ok_0, to, x, f) + if x == 0 && f(j) {
            1nat
        } else {
            0nat
        },
{
    lemma_close_hides(t, j + 1, 1, x, to, f);
}

/// A text value hides its tokens, but for a word that is a type tag where no
/// block is open.
proof fn lemma_text_hides(t: Seq<TokenView>, s: Seq<u8>, j: int, x: int, to: int, f: spec_fn(int) -> bool)
    requires
        text_at(t, s, j) is Ok,
        text_at(t, s, j)->Ok_0.1 <= to <= t.len(),
        x >= 0,
    ensures
        j < text_at(t, s, j)->Ok_0.1,
        top_count(t, j, to, x, f) == top_count(t, text_at(t, s, j)->Ok_0.1, to, x, f) + if x == 0 && f(j) {
            1nat
        } else {
            0nat
        },
{
    if !(present(t, j) && t[j].typ == TokenType::Word) {
        lemma_skip_hides(t, j, x, to, f);
    }
}

/// A property value inside a block hides its tokens.
proof fn lemma_value_hides(
    t: Seq<TokenView>,
    s: Seq<u8>,
    j: int,
    kw: Keyword,
    kw_at: int,
    x: int,
    to: int,
    f: spec_fn(int) -> bool,
)
    requires
        value_at(t, s, j, kw, kw_at) is Ok,
        0 <= j,
        value_at(t, s, j, kw, kw_at)->Ok_0.2 <= to <= t.len(),
        x >= 1,
    ensures
        j <= value_at(t, s, j, kw, kw_at)->Ok_0.2,
        top_count(t, j, to, x, f) == top_count(t, value_at(t, s, j, kw, kw_at)->Ok_0.2, to, x, f),
{
    reveal(value_at);
    match kw {
        Keyword::Prop(k) => {
            if key_kind(k) == Kind::Text {
                lemma_text_hides(t, s, j, x, to, f);
            }
        },
        _ => {},
    }
}

/// The items of a property block hide their tokens, and its closing brace
/// brings the depth back to `x`.
proof fn lemma_prop_items_hide(
    t: Seq<TokenView>,
    s: Seq<u8>,
    rk: Record,
    j: int,
    open_at: int,
    acc: Seq<(PropKey, PropValue)>,
    x: int,
    to: int,
    f: spec_fn(int) -> bool,
)
    requires
        prop_items(t, s, rk, j, open_at, acc) is Ok,
        prop_items(t, s, rk, j, open_at, acc)->Ok_0.1 <= to <= t.len(),
        x >= 0,
        0 <= j,
    ensures
        j < prop_items(t, s, rk, j, open_at, acc)->Ok_0.1,
        top_count(t, j, to, x + 1, f) == top_count(
            t,
            prop_items(t, s, rk, j, open_at, acc)->Ok_0.1,
            to,
            x,
            f,
        ),
    decreases t.len() - j,
{
    if t[j].typ == TokenType::CloseBrace {
    } else if t[j].typ == TokenType::OpenBrace {
        let e = skip_at(t, j)->Ok_0;
        lemma_prop_items_hide(t, s, rk, e, open_at, acc, x, to, f);
        lemma_skip_hides(t, j, x + 1, to, f);
    } else {
        match keyword_of(rk, t[j].word) {
            None => {
                lemma_prop_items_hide(t, s, rk, j + 1, open_at, acc, x, to, f);
            },
            Some(kw) => {
                let (k, v, e) = value_at(t, s, j + 1, kw, t[j].start)->Ok_0;
                lemma_prop_items_hide(t, s, rk, e, open_at, acc.push((k, v)), x, to, f);
                lemma_value_hides(t, s, j + 1, kw, t[j].start, x + 1, to, f);
            },
        }
    }
}

/// A property block hides its tokens.
proof fn lemma_props_hide(t: Seq<TokenView>, s: Seq<u8>, rk: Record, j: int, x: int, to: int, f: spec_fn(int) -> bool)
    requires
        props_at(t, s, rk, j) is Ok,
        props_at(t, s, rk, j)->Ok_0.1 <= to <= t.len(),
        x >= 0,
        0 <= j,
    ensures
        j < props_at(t, s, rk, j)->Ok_0.1,
        top_count(t, j, to, x, f) == top_count(t, props_at(t, s, rk, j)->Ok_0.1, to, x, f) + if x == 0 && f(j) {
            1nat
        } else {
            0nat
        },
{
    lemma_prop_items_hide(t, s, rk, j + 1, t[j].start, seq![], x, to, f);
}

/// A widget hides its tokens but for its type tag, counted where no block is
/// open; there its name must be no type tag.
proof fn lemma_widget_hides(t: Seq<TokenView>, s: Seq<u8>, i: int, x: int, to: int, f: spec_fn(int) -> bool)
    requires
        widget_at(t, s, i) is Ok,
        widget_at(t, s, i)->Ok_0.1 <= to <= t.len(),
        x >= 0,
        0 <= i,
        t[i].typ == TokenType::Word,
        words_only(t, f),
        x == 0 ==> !f(i + 1),
    ensures
        i < widget_at(t, s, i)->Ok_0.1,
        top_count(t, i, to, x, f) == top_count(t, widget_at(t, s, i)->Ok_0.1, to, x, f) + if x == 0
            && f(i) {
            1nat
        } else {
            0nat
        },
    decreases t.len() - i, 0nat,
{
    let (name, j) = text_at(t, s, i + 1)->Ok_0;
    let (a, k) = props_at(t, s, Record::Widget, j)->Ok_0;
    let m = WidgetModel { typ: t[i].word, name, props: apply_props(Map::empty(), a), children: seq![] };
    lemma_widget_rest_hides(t, s, k, m, x, to, f);
    lemma_props_hide(t, s, Record::Widget, j, x, to, f);
    lemma_text_hides(t, s, i + 1, x, to, f);
}

proof fn lemma_widget_rest_hides(
    t: Seq<TokenView>,
    s: Seq<u8>,
    k: int,
    m: WidgetModel,
    x: int,
    to: int,
    f: spec_fn(int) -> bool,
)
    requires
        widget_rest(t, s, k, m) is Ok,
        widget_rest(t, s, k, m)->Ok_0.1 <= to <= t.len(),
        x >= 0,
        0 <= k,
        words_only(t, f),
    ensures
        k <= widget_rest(t, s, k, m)->Ok_0.1,
        top_count(t, k, to, x, f) == top_count(t, widget_rest(t, s, k, m)->Ok_0.1, to, x, f),
    decreases t.len() - k, 1nat,
{
    if !(present(t, k) && t[k].typ == TokenType::OpenBrace) {
    } else if starts_children(t, k) {
        lemma_children_hide(t, s, k + 1, t[k].start, m, x, to, f);
    } else {
        let (a, e) = props_at(t, s, Record::Widget, k)->Ok_0;
        let m2 = WidgetModel {
            typ: m.typ,
            name: m.name,
            props: apply_props(m.props, a),
            children: m.children,
        };
        lemma_widget_rest_hides(t, s, e, m2, x, to, f);
        lemma_props_hide(t, s, Record::Widget, k, x, to, f);
    }
}

proof fn lemma_children_hide(
    t: Seq<TokenView>,
    s: Seq<u8>,
    j: int,
    open_at: int,
    m: WidgetModel,
    x: int,
    to: int,
    f: spec_fn(int) -> bool,
)
    requires
        children_at(t, s, j, open_at, m) is Ok,
        children_at(t, s, j, open_at, m)->Ok_0.1 <= to <= t.len(),
        x >= 0,
        0 <= j,
        words_only(t, f),
    ensures
        j < children_at(t, s, j, open_at, m)->Ok_0.1,
        top_count(t, j, to, x + 1, f) == top_count(t, children_at(t, s, j, open_at, m)->Ok_0.1, to, x, f),
    decreases t.len() - j, 1nat,
{
    if t[j].typ == TokenType::CloseBrace {
    } else if t[j].typ == TokenType::OpenBrace {
        let e = skip_at(t, j)->Ok_0;
        lemma_children_hide(t, s, e, open_at, m, x, to, f);
        lemma_skip_hides(t, j, x + 1, to, f);
    } else if is_type_tag(t[j]) {
        let (c, e) = widget_at(t, s, j)->Ok_0;
        let m2 = WidgetModel {
            typ: m.typ,
            name: m.name,
            props: m.props,
            children: m.children.push(c),
        };
        lemma_children_hide(t, s, e, open_at, m2, x, to, f);
        lemma_widget_hides(t, s, j, x + 1, to, f);
    } else {
        lemma_children_hide(t, s, j + 1, open_at, m, x, to, f);
    }
}

/// The children of a widget are the type tags of its children block that
/// stand where no inner block is open, one child for each, in the order of
/// the text. The block's items from `j` on add to the children of `m` as
/// many widgets as such tags stand before its closing brace, provided no
/// child is named with a bare type tag (no such tag is followed by another).
pub proof fn law_children_match_tags(t: Seq<TokenView>, s: Seq<u8>, j: int, open_at: int, m: WidgetModel)
    requires
        0 <= j,
        children_at(t, s, j, open_at, m) is Ok,
        top_count(t, j, children_at(t, s, j, open_at, m)->Ok_0.1 - 1, 0, tag_pair_at(t)) == 0,
    ensures
        ({
            let (m2, e) = children_at(t, s, j, open_at, m)->Ok_0;
            &&& t[e - 1].typ == TokenType::CloseBrace
            &&& m2.children.len() == m.children.len() + top_count(t, j, e - 1, 0, tag_at(t))
            &&& m2.children.subrange(0, m.children.len() as int) == m.children
        }),
    decreases t.len() - j,
{
    let (m2, e) = children_at(t, s, j, open_at, m)->Ok_0;
    lemma_children_end(t, s, j, open_at, m);
    assert(words_only(t, tag_at(t)));
    assert(words_only(t, tag_pair_at(t)));
    if t[j].typ == TokenType::CloseBrace {
        assert(m2.children.subrange(0, m.children.len() as int) =~= m.children);
    } else if t[j].typ == TokenType::OpenBrace {
        let e1 = skip_at(t, j)->Ok_0;
        assert(children_at(t, s, j, open_at, m) == children_at(t, s, e1, open_at, m));
        lemma_children_end(t, s, e1, open_at, m);
        lemma_skip_hides(t, j, 0, e - 1, tag_pair_at(t));
        law_children_match_tags(t, s, e1, open_at, m);
        lemma_skip_hides(t, j, 0, e - 1, tag_at(t));
    } else if is_type_tag(t[j]) {
        let (c, e1) = widget_at(t, s, j)->Ok_0;
        let mc = WidgetModel {
            typ: m.typ,
            name: m.name,
            props: m.props,
            children: m.children.push(c),
        };
        assert(children_at(t, s, j, open_at, m) == children_at(t, s, e1, open_at, mc));
        lemma_children_end(t, s, e1, open_at, mc);
        assert(!tag_pair_at(t)(j));
        assert(!is_type_tag(t[j + 1]));
        lemma_widget_hides(t, s, j, 0, e - 1, tag_pair_at(t));
        law_children_match_tags(t, s, e1, open_at, mc);
        lemma_widget_hides(t, s, j, 0, e - 1, tag_at(t));
        assert(m2.children.subrange(0, m.children.len() as int) =~= mc.children.subrange(
            0,
            mc.children.len() as int,
        ).subrange(0, m.children.len() as int));
    } else {
        law_children_match_tags(t, s, j + 1, open_at, m);
    }
}

/// The items of a children block end with its closing brace, after them.
proof fn lemma_children_end(t: Seq<TokenView>, s: Seq<u8>, j: int, open_at: int, m: WidgetModel)
    requires
        0 <= j,
        children_at(t, s, j, open_at, m) is Ok,
    ensures
        j < children_at(t, s, j, open_at, m)->Ok_0.1 <= t.len(),
        t[children_at(t, s, j, open_at, m)->Ok_0.1 - 1].typ == TokenType::CloseBrace,
    decreases t.len() - j,
{
    if t[j].typ == TokenType::CloseBrace {
    } else if t[j].typ == TokenType::OpenBrace {
        lemma_children_end(t, s, skip_at(t, j)->Ok_0, open_at, m);
    } else if is_type_tag(t[j]) {
        let (c, e1) = widget_at(t, s, j)->Ok_0;
        let mc = WidgetModel {
            typ: m.typ,
            name: m.name,
            props: m.props,
            children: m.children.push(c),
        };
        lemma_children_end(t, s, e1, open_at, mc);
    } else {
        lemma_children_end(t, s, j + 1, open_at, m);
    }
}

/// The number of bytes equal to `x` at offsets `from` up to `to`.
pub open spec fn count_byte(b: Seq<u8>, from: int, to: int, x: u8) -> nat
    decreases to - from,
{
    if from >= to {
        0
    } else {
        count_byte(b, from, to - 1, x) + if b[to - 1] == x {
            1nat
        } else {
            0nat
        }
    }
}

proof fn lemma_count_byte_split(b: Seq<u8>, a: int, m: int, c: int, x: u8)
    requires
        a <= m <= c,
    ensures
        count_byte(b, a, c, x) == count_byte(b, a, m, x) + count_byte(b, m, c, x),
    decreases c - m,
{
    if m < c {
        lemma_count_byte_split(b, a, m, c - 1, x);
    }
}

proof fn lemma_count_byte_none(b: Seq<u8>, a: int, c: int, x: u8)
    requires
        forall|p: int| a <= p < c ==> #[trigger] b[p] != x,
    ensures
        count_byte(b, a, c, x) == 0,
    decreases c - a,
{
    if a < c {
        lemma_count_byte_none(b, a, c - 1, x);
    }
}

/// No word strictly between tokens `i` and `j` holds the byte `x`.
pub open spec fn words_free_of(t: Seq<TokenView>, b: Seq<u8>, i: int, j: int, x: u8) -> bool {
    forall|k: int, p: int|
        #![trigger t[k], b[p]]
        i < k < j && t[k].typ == TokenType::Word && t[k].start <= p < t[k].end ==> b[p] != x
}

/// Between two tokens of a text, the bytes `{` (or `}`) are the brace
/// tokens of that kind between them, where no word between holds such a
/// byte.
proof fn lemma_bytes_match_tokens(t: Seq<TokenView>, b: Seq<u8>, i: int, j: int, x: u8, kind: TokenType)
    requires
        tokens_cover(t, b),
        0 <= i < j < t.len(),
        (x == 0x7b && kind == TokenType::OpenBrace) || (x == 0x7d && kind == TokenType::CloseBrace),
        words_free_of(t, b, i, j, x),
    ensures
        t[i].end <= t[j].start,
        count_byte(b, t[i].end, t[j].start, x) == count_kind(t, i + 1, j, kind),
    decreases j - i,
{
    let k = j - 1;
    assert(t[k].end <= t[j].start && forall|p: int| t[k].end <= p < t[j].start ==> is_space(#[trigger] b[p]));
    lemma_count_byte_none(b, t[k].end, t[j].start, x);
    if j == i + 1 {
    } else {
        lemma_bytes_match_tokens(t, b, i, k, x, kind);
        lemma_count_byte_split(b, t[i].end, t[k].start, t[j].start, x);
        lemma_count_byte_split(b, t[k].start, t[k].end, t[j].start, x);
        assert(t[k].typ != TokenType::Eof && t[k].typ != TokenType::Unknown);
        if t[k].typ == TokenType::Word {
            assert forall|p: int| t[k].start <= p < t[k].end implies #[trigger] b[p] != x by {
                assert(t[k] == t[k]);
            }
            lemma_count_byte_none(b, t[k].start, t[k].end, x);
        } else {
            reveal_with_fuel(count_byte, 2);
        }
    }
}

/// Brace balance in the text: for a block that parses among the tokens of
/// text `s`, its text is exactly the bytes between its `{` and its `}`, and,
/// where no word in it holds a `{` (a `{` does not end a word), they hold as
/// many `{` as `}`.
pub proof fn law_block_text_balanced(s: Seq<u8>, i: int)
    requires
        block_at(tokenize(s), s, i) is Ok,
        words_free_of(tokenize(s), s, i, block_at(tokenize(s), s, i)->Ok_0.1 - 1, 0x7b),
    ensures
        ({
            let t = tokenize(s);
            let (x, e) = block_at(t, s, i)->Ok_0;
            let a = t[i].end;
            let c = t[e - 1].start;
            &&& 0 < a <= c < s.len()
            &&& s[a - 1] == 0x7b
            &&& s[c] == 0x7d
            &&& x == decode_utf8(s.subrange(a, c))
            &&& count_byte(s, a, c, 0x7b) == count_byte(s, a, c, 0x7d)
        }),
{
    let t = tokenize(s);
    lemma_first_cursor(s);
    lemma_lex_cover(s, first_cursor(s));
    law_block_balanced(t, s, i);
    let e = block_at(t, s, i)->Ok_0.1;
    lemma_bytes_match_tokens(t, s, i, e - 1, 0x7b, TokenType::OpenBrace);
    assert forall|k: int, p: int|
        #![trigger t[k], s[p]]
        i < k < e - 1 && t[k].typ == TokenType::Word && t[k].start <= p < t[k].end implies s[p]
            != 0x7d by {}
    lemma_bytes_match_tokens(t, s, i, e - 1, 0x7d, TokenType::CloseBrace);
}

/// Every flag in a map of properties is true.
pub open spec fn flags_true(m: Map<PropKey, PropValue>) -> bool {
    forall|k: PropKey|
        m.contains_key(k) && key_kind(k) == Kind::Flag ==> #[trigger] m[k] == PropValue::Flag(true)
}

/// Every flag that a sequence of assignments sets is set to true.
pub open spec fn flags_true_seq(a: Seq<(PropKey, PropValue)>) -> bool {
    forall|q: int|
        0 <= q < a.len() && key_kind(a[q].0) == Kind::Flag ==> #[trigger] a[q].1 == PropValue::Flag(true)
}

proof fn lemma_apply_flags(m: Map<PropKey, PropValue>, a: Seq<(PropKey, PropValue)>)
    requires
        flags_true(m),
        flags_true_seq(a),
    ensures
        flags_true(apply_props(m, a)),
    decreases a.len(),
{
    if a.len() > 0 {
        assert(flags_true_seq(a.drop_last()));
        lemma_apply_flags(m, a.drop_last());
        assert(a.last() == a[a.len() - 1]);
    }
}

proof fn lemma_prop_items_flags(
    t: Seq<TokenView>,
    s: Seq<u8>,
    rk: Record,
    j: int,
    open_at: int,
    acc: Seq<(PropKey, PropValue)>,
)
    requires
        prop_items(t, s, rk, j, open_at, acc) is Ok,
        flags_true_seq(acc),
    ensures
        flags_true_seq(prop_items(t, s, rk, j, open_at, acc)->Ok_0.0),
    decreases t.len() - j,
{
    reveal(value_at);
    if t[j].typ == TokenType::CloseBrace {
    } else if t[j].typ == TokenType::OpenBrace {
        lemma_prop_items_flags(t, s, rk, skip_at(t, j)->Ok_0, open_at, acc);
    } else {
        match keyword_of(rk, t[j].word) {
            None => {
                lemma_prop_items_flags(t, s, rk, j + 1, open_at, acc);
            },
            Some(kw) => {
                let (k, v, e) = value_at(t, s, j + 1, kw, t[j].start)->Ok_0;
                assert(key_kind(k) == Kind::Flag ==> v == PropValue::Flag(true));
                let acc2 = acc.push((k, v));
                assert forall|q: int|
                    0 <= q < acc2.len() && key_kind(acc2[q].0) == Kind::Flag implies #[trigger] acc2[q].1
                    == PropValue::Flag(true) by {
                    if q < acc.len() {
                        assert(acc2[q] == acc[q]);
                    }
                }
                lemma_prop_items_flags(t, s, rk, e, open_at, acc2);
            },
        }
    }
}

proof fn lemma_children_keep_props(t: Seq<TokenView>, s: Seq<u8>, j: int, open_at: int, m: WidgetModel)
    requires
        children_at(t, s, j, open_at, m) is Ok,
    ensures
        children_at(t, s, j, open_at, m)->Ok_0.0.props == m.props,
    decreases t.len() - j,
{
    if t[j].typ == TokenType::CloseBrace {
    } else if t[j].typ == TokenType::OpenBrace {
        lemma_children_keep_props(t, s, skip_at(t, j)->Ok_0, open_at, m);
    } else if is_type_tag(t[j]) {
        let (c, e) = widget_at(t, s, j)->Ok_0;
        let mc = WidgetModel {
            typ: m.typ,
            name: m.name,
            props: m.props,
            children: m.children.push(c),
        };
        lemma_children_keep_props(t, s, e, open_at, mc);
    } else {
        lemma_children_keep_props(t, s, j + 1, open_at, m);
    }
}

proof fn lemma_widget_rest_flags(t: Seq<TokenView>, s: Seq<u8>, k: int, m: WidgetModel)
    requires
        widget_rest(t, s, k, m) is Ok,
        flags_true(m.props),
    ensures
        flags_true(widget_rest(t, s, k, m)->Ok_0.0.props),
    decreases t.len() - k,
{
    if !(present(t, k) && t[k].typ == TokenType::OpenBrace) {
    } else if starts_children(t, k) {
        lemma_children_keep_props(t, s, k + 1, t[k].start, m);
    } else {
        let (a, e) = props_at(t, s, Record::Widget, k)->Ok_0;
        lemma_prop_items_flags(t, s, Record::Widget, k + 1, t[k].start, seq![]);
        lemma_apply_flags(m.props, a);
        let m2 = WidgetModel {
            typ: m.typ,
            name: m.name,
            props: apply_props(m.props, a),
            children: m.children,
        };
        lemma_widget_rest_flags(t, s, e, m2);
    }
}

/// Absence and falsity stay apart: a widget's flags are absent or true,
/// never false, for the format has no way to write a false flag.
pub proof fn law_widget_flags_true(t: Seq<TokenView>, s: Seq<u8>, i: int)
    requires
        widget_at(t, s, i) is Ok,
    ensures
        flags_true(widget_at(t, s, i)->Ok_0.0.props),
{
    let (name, j) = text_at(t, s, i + 1)->Ok_0;
    let (a, k) = props_at(t, s, Record::Widget, j)->Ok_0;
    lemma_prop_items_flags(t, s, Record::Widget, j + 1, t[j].start, seq![]);
    assert(flags_true(Map::<PropKey, PropValue>::empty()));
    lemma_apply_flags(Map::empty(), a);
    let m = WidgetModel { typ: t[i].word, name, props: apply_props(Map::empty(), a), children: seq![] };
    lemma_widget_rest_flags(t, s, k, m);
}

} // verus!
