use crate::ast::{
    is_class_key, is_comment_key, is_decl_key, is_function_key, is_widget_key, key_kind, kind_of,
    Ast, AstModel, Class, ClassModel, ClassProps, Comment, CommentProps, Decl, DeclProps, Function,
    FunctionModel, FunctionProps, Keyword, Kind, NoteModel, PropKey, PropValue, Value, Visibility, Widget,
    WidgetModel, WidgetProps,
};
use crate::grammar::{
    apply_props, block_at, code_at, inside_block, class_keyword, close_of, comment_keyword, decimal_at, decl_keyword,
    function_keyword, is_type_tag, keyword_key, keyword_of, lemma_keyword_fits, prop_items, props_at,
    body_at, children_at, empty_ast, items_at, parse_model, parse_tokens, class_at, class_body_at, function_at, note_at, record_key, signed_at, starts_children, widget_at, widget_rest, skip_at, text_at, unsigned_at, value_at, widget_keyword, ParseError,
    Record,
};
use crate::numeral::{parse_decimal, parse_i32, parse_u32, Decimal};
use crate::lexer::{lemma_lex_from, lemma_lex_step, lex_from, same_text, text_between, tokens_wf, Lexer};
use crate::token::{Token, TokenType, TokenView};
use vstd::prelude::*;
use vstd::string::StringSliceAdditionalSpecFns;
use vstd::utf8::*;

verus! {

fn widget_keyword_of(w: &str) -> (r: Option<Keyword>)
    ensures
        r == widget_keyword(w@),
{
    reveal(widget_keyword);
    if same_text(w, "open") {
        Some(Keyword::Prop(PropKey::Open))
    } else if same_text(w, "hide") {
        Some(Keyword::Prop(PropKey::Hide))
    } else if same_text(w, "deactivate") {
        Some(Keyword::Prop(PropKey::Deactivate))
    } else if same_text(w, "divider") {
        Some(Keyword::Prop(PropKey::Divider))
    } else if same_text(w, "resizable") {
        Some(Keyword::Prop(PropKey::Resizable))
    } else if same_text(w, "visible") {
        Some(Keyword::Prop(PropKey::Visible))
    } else if same_text(w, "hotspot") {
        Some(Keyword::Prop(PropKey::Hotspot))
    } else if same_text(w, "modal") {
        Some(Keyword::Prop(PropKey::Modal))
    } else if same_text(w, "non_modal") {
        Some(Keyword::Prop(PropKey::NonModal))
    } else if same_text(w, "noborder") {
        Some(Keyword::Prop(PropKey::Noborder))
    } else if same_text(w, "selected") {
        Some(Keyword::Prop(PropKey::Selected))
    } else if same_text(w, "xywh") {
        Some(Keyword::Prop(PropKey::Xywh))
    } else if same_text(w, "size_range") {
        Some(Keyword::Prop(PropKey::SizeRange))
    } else if same_text(w, "color") {
        Some(Keyword::Prop(PropKey::Color))
    } else if same_text(w, "selection_color") {
        Some(Keyword::Prop(PropKey::SelectionColor))
    } else if same_text(w, "labelcolor") {
        Some(Keyword::Prop(PropKey::Labelcolor))
    } else if same_text(w, "textcolor") {
        Some(Keyword::Prop(PropKey::Textcolor))
    } else if same_text(w, "type") {
        Some(Keyword::Prop(PropKey::Typ))
    } else if same_text(w, "labeltype") {
        Some(Keyword::Prop(PropKey::Labeltype))
    } else if same_text(w, "labelfont") {
        Some(Keyword::Prop(PropKey::Labelfont))
    } else if same_text(w, "textfont") {
        Some(Keyword::Prop(PropKey::Textfont))
    } else if same_text(w, "labelsize") {
        Some(Keyword::Prop(PropKey::Labelsize))
    } else if same_text(w, "textsize") {
        Some(Keyword::Prop(PropKey::Textsize))
    } else if same_text(w, "box") {
        Some(Keyword::Prop(PropKey::BoxType))
    } else if same_text(w, "down_box") {
        Some(Keyword::Prop(PropKey::DownBox))
    } else if same_text(w, "align") {
        Some(Keyword::Prop(PropKey::Align))
    } else if same_text(w, "when") {
        Some(Keyword::Prop(PropKey::When))
    } else if same_text(w, "shortcut") {
        Some(Keyword::Prop(PropKey::Shortcut))
    } else if same_text(w, "gap") {
        Some(Keyword::Prop(PropKey::Gap))
    } else if same_text(w, "minimum") {
        Some(Keyword::Prop(PropKey::Minimum))
    } else if same_text(w, "maximum") {
        Some(Keyword::Prop(PropKey::Maximum))
    } else if same_text(w, "step") {
        Some(Keyword::Prop(PropKey::Step))
    } else if same_text(w, "slider_size") {
        Some(Keyword::Prop(PropKey::SliderSize))
    } else if same_text(w, "size") {
        Some(Keyword::Prop(PropKey::Size))
    } else if same_text(w, "label") {
        Some(Keyword::Prop(PropKey::Label))
    } else if same_text(w, "xclass") {
        Some(Keyword::Prop(PropKey::Xclass))
    } else if same_text(w, "class") {
        Some(Keyword::Prop(PropKey::Class))
    } else if same_text(w, "tooltip") {
        Some(Keyword::Prop(PropKey::Tooltip))
    } else if same_text(w, "image") {
        Some(Keyword::Prop(PropKey::Image))
    } else if same_text(w, "deimage") {
        Some(Keyword::Prop(PropKey::Deimage))
    } else if same_text(w, "value") {
        Some(Keyword::Prop(PropKey::Value))
    } else if same_text(w, "set_size_tuples") {
        Some(Keyword::Prop(PropKey::SizeTuple))
    } else if same_text(w, "fixed_size_tuples") {
        Some(Keyword::Prop(PropKey::SizeTuple))
    } else if same_text(w, "margins") {
        Some(Keyword::Prop(PropKey::Margins))
    } else if same_text(w, "code0") {
        Some(Keyword::Prop(PropKey::Code0))
    } else if same_text(w, "code1") {
        Some(Keyword::Prop(PropKey::Code1))
    } else if same_text(w, "code2") {
        Some(Keyword::Prop(PropKey::Code2))
    } else if same_text(w, "code3") {
        Some(Keyword::Prop(PropKey::Code3))
    } else if same_text(w, "extra_code") {
        Some(Keyword::Prop(PropKey::ExtraCode))
    } else if same_text(w, "callback") {
        Some(Keyword::Prop(PropKey::Callback))
    } else if same_text(w, "user_data") {
        Some(Keyword::Prop(PropKey::UserData))
    } else if same_text(w, "user_data_type") {
        Some(Keyword::Prop(PropKey::UserDataType))
    } else if same_text(w, "comment") {
        Some(Keyword::Prop(PropKey::Comment))
    } else {
        None
    }
}

fn function_keyword_of(w: &str) -> (r: Option<Keyword>)
    ensures
        r == function_keyword(w@),
{
    reveal(function_keyword);
    if same_text(w, "open") {
        Some(Keyword::Prop(PropKey::Open))
    } else if same_text(w, "C") {
        Some(Keyword::Prop(PropKey::CLinkage))
    } else if same_text(w, "protected") {
        Some(Keyword::Vis(Visibility::PROTECTED))
    } else if same_text(w, "private") {
        Some(Keyword::Vis(Visibility::PRIVATE))
    } else if same_text(w, "comment") {
        Some(Keyword::Prop(PropKey::Comment))
    } else if same_text(w, "return_type") {
        Some(Keyword::Prop(PropKey::ReturnType))
    } else {
        None
    }
}

fn class_keyword_of(w: &str) -> (r: Option<Keyword>)
    ensures
        r == class_keyword(w@),
{
    reveal(class_keyword);
    if same_text(w, "open") {
        Some(Keyword::Prop(PropKey::Open))
    } else if same_text(w, "protected") {
        Some(Keyword::Vis(Visibility::PROTECTED))
    } else if same_text(w, "private") {
        Some(Keyword::Vis(Visibility::PRIVATE))
    } else if same_text(w, "comment") {
        Some(Keyword::Prop(PropKey::Comment))
    } else {
        None
    }
}

fn comment_keyword_of(w: &str) -> (r: Option<Keyword>)
    ensures
        r == comment_keyword(w@),
{
    reveal(comment_keyword);
    if same_text(w, "in_source") {
        Some(Keyword::Prop(PropKey::InSource))
    } else if same_text(w, "in_header") {
        Some(Keyword::Prop(PropKey::InHeader))
    } else {
        None
    }
}

fn decl_keyword_of(w: &str) -> (r: Option<Keyword>)
    ensures
        r == decl_keyword(w@),
{
    reveal(decl_keyword);
    if same_text(w, "private") {
        Some(Keyword::Vis(Visibility::PRIVATE))
    } else if same_text(w, "public") {
        Some(Keyword::Vis(Visibility::PUBLIC))
    } else if same_text(w, "global") {
        Some(Keyword::Prop(PropKey::Global))
    } else if same_text(w, "local") {
        Some(Keyword::Prop(PropKey::Local))
    } else {
        None
    }
}

/// The keywords of the property blocks of a kind of record.
fn keyword_lookup(rk: Record, w: &str) -> (r: Option<Keyword>)
    ensures
        r == keyword_of(rk, w@),
{
    match rk {
        Record::Widget => widget_keyword_of(w),
        Record::Function => function_keyword_of(w),
        Record::Class => class_keyword_of(w),
        Record::Comment => comment_keyword_of(w),
        Record::Decl => decl_keyword_of(w),
    }
}

/// An error met inside the block that opens at offset `open`.
fn error_inside(x: ParseError, open: usize) -> (r: ParseError)
    ensures
        r == inside_block(x, open as int),
{
    match x {
        ParseError::PrematureEndOfInput => ParseError::UnterminatedBlock { open },
        _ => x,
    }
}

/// Whether the token begins a widget.
fn is_type_tag_token(t: &Token) -> (r: bool)
    ensures
        r == is_type_tag(t@),
{
    if t.typ != TokenType::Word {
        return false;
    }
    let b = t.word.as_bytes();
    (b.len() >= 3 && b[0] == 0x46 && b[1] == 0x6c && b[2] == 0x5f) || same_text(t.word, "MenuItem")
        || same_text(t.word, "Submenu")
}

/// Assignments of properties, as values.
pub open spec fn pairs_view(v: Seq<(PropKey, Value)>) -> Seq<(PropKey, PropValue)> {
    v.map_values(|p: (PropKey, Value)| (p.0, p.1@))
}

/// An index, or the same error, as the grammar gives.
pub open spec fn index_result(r: Result<usize, ParseError>, g: Result<int, ParseError>) -> bool {
    match (r, g) {
        (Ok(k), Ok(e)) => k == e,
        (Err(x), Err(y)) => x == y,
        _ => false,
    }
}

/// A value and an index, or the same error, as the grammar gives.
pub open spec fn value_result<X>(r: Result<(X, usize), ParseError>, g: Result<(X, int), ParseError>) -> bool {
    match (r, g) {
        (Ok((x, k)), Ok((y, e))) => x == y && k == e,
        (Err(x), Err(y)) => x == y,
        _ => false,
    }
}

/// A text and an index, or the same error, as the grammar gives.
pub open spec fn text_result(r: Result<(String, usize), ParseError>, g: Result<(Seq<char>, int), ParseError>) -> bool {
    match (r, g) {
        (Ok((x, k)), Ok((y, e))) => x@ == y && k == e,
        (Err(x), Err(y)) => x == y,
        _ => false,
    }
}

/// An assignment and an index, or the same error, as the grammar gives.
pub open spec fn prop_result(
    r: Result<(PropKey, Value, usize), ParseError>,
    g: Result<(PropKey, PropValue, int), ParseError>,
) -> bool {
    match (r, g) {
        (Ok((k, v, i)), Ok((k2, v2, e))) => k == k2 && v@ == v2 && i == e,
        (Err(x), Err(y)) => x == y,
        _ => false,
    }
}

/// Assignments and an index, or the same error, as the grammar gives.
pub open spec fn props_result(
    r: Result<(Vec<(PropKey, Value)>, usize), ParseError>,
    g: Result<(Seq<(PropKey, PropValue)>, int), ParseError>,
) -> bool {
    match (r, g) {
        (Ok((a, k)), Ok((b, e))) => pairs_view(a@) == b && k == e,
        (Err(x), Err(y)) => x == y,
        _ => false,
    }
}

/// A widget and an index, or the same error, as the grammar gives.
pub open spec fn widget_result(r: Result<(Widget, usize), ParseError>, g: Result<(WidgetModel, int), ParseError>) -> bool {
    match (r, g) {
        (Ok((w, k)), Ok((m, e))) => w.models(m) && k == e,
        (Err(x), Err(y)) => x == y,
        _ => false,
    }
}

/// A function and an index, or the same error, as the grammar gives.
pub open spec fn function_result(
    r: Result<(Function, usize), ParseError>,
    g: Result<(FunctionModel, int), ParseError>,
) -> bool {
    match (r, g) {
        (Ok((f, k)), Ok((m, e))) => f.models(m) && k == e,
        (Err(x), Err(y)) => x == y,
        _ => false,
    }
}

/// A class and an index, or the same error, as the grammar gives.
pub open spec fn class_result(r: Result<(Class, usize), ParseError>, g: Result<(ClassModel, int), ParseError>) -> bool {
    match (r, g) {
        (Ok((c, k)), Ok((m, e))) => c.models(m) && k == e,
        (Err(x), Err(y)) => x == y,
        _ => false,
    }
}

/// A comment and an index, or the same error, as the grammar gives.
pub open spec fn comment_result(r: Result<(Comment, usize), ParseError>, g: Result<(NoteModel, int), ParseError>) -> bool {
    match (r, g) {
        (Ok((c, k)), Ok((m, e))) => c.models(m) && k == e,
        (Err(x), Err(y)) => x == y,
        _ => false,
    }
}

/// A declaration and an index, or the same error, as the grammar gives.
pub open spec fn decl_result(r: Result<(Decl, usize), ParseError>, g: Result<(NoteModel, int), ParseError>) -> bool {
    match (r, g) {
        (Ok((d, k)), Ok((m, e))) => d.models(m) && k == e,
        (Err(x), Err(y)) => x == y,
        _ => false,
    }
}

/// A project, or the same error, as the grammar gives.
pub open spec fn ast_result(r: Result<Ast, ParseError>, g: Result<AstModel, ParseError>) -> bool {
    match (r, g) {
        (Ok(a), Ok(m)) => a.models(m),
        (Err(x), Err(y)) => x == y,
        _ => false,
    }
}

/// The index after a successful read lies after `lo` and within the tokens.
pub open spec fn index_within<X>(r: Result<(X, usize), ParseError>, lo: int, n: int) -> bool {
    r matches Ok((_, k)) ==> lo < k < n
}

/// Applies the assignments `a`, in order, to the properties of a widget.
fn apply_widget_props(p: &mut WidgetProps, a: Vec<(PropKey, Value)>, Ghost(base): Ghost<Map<PropKey, PropValue>>)
    requires
        old(p).holds(base),
        forall|k: int|
            0 <= k < a@.len() ==> is_widget_key((#[trigger] a@[k]).0) && kind_of(a@[k].1@) == key_kind(
                a@[k].0,
            ),
    ensures
        final(p).holds(apply_props(base, pairs_view(a@))),
{
    let ghost all = pairs_view(a@);
    let ghost n = a@.len() as int;
    let mut a = a;
    assert(all.subrange(0, 0) =~= Seq::<(PropKey, PropValue)>::empty());
    assert(pairs_view(a@) =~= all.subrange(0, n));
    while a.len() > 0
        invariant
            n == all.len(),
            a@.len() <= n,
            pairs_view(a@) == all.subrange(n - a@.len(), n),
            forall|k: int|
                0 <= k < a@.len() ==> is_widget_key((#[trigger] a@[k]).0) && kind_of(a@[k].1@)
                    == key_kind(a@[k].0),
            p.holds(apply_props(base, all.subrange(0, n - a@.len()))),
        decreases a@.len(),
    {
        let ghost m = n - a@.len();
        let ghost before = a@;
        let (key, v) = a.remove(0);
        assert(a@ =~= before.subrange(1, before.len() as int));
        assert(pairs_view(before)[0] == all[m]);
        assert forall|k: int| 0 <= k < a@.len() implies #[trigger] pairs_view(a@)[k] == all[m + 1 + k] by {
            assert(pairs_view(a@)[k] == pairs_view(before)[k + 1]);
        }
        assert(all.subrange(0, m + 1).drop_last() =~= all.subrange(0, m));
        assert(pairs_view(a@) =~= all.subrange(n - a@.len(), n));
        assert(before[0] == (key, v));
        assert forall|k: int|
            0 <= k < a@.len() implies is_widget_key((#[trigger] a@[k]).0) && kind_of(a@[k].1@) == key_kind(a@[k].0) by {
            assert(a@[k] == before[k + 1]);
        }
        p.set(key, v);
    }
    assert(all.subrange(0, n) =~= all);
}

/// Applies the assignments `a`, in order, to the properties of a function.
fn apply_function_props(p: &mut FunctionProps, a: Vec<(PropKey, Value)>, Ghost(base): Ghost<Map<PropKey, PropValue>>)
    requires
        old(p).holds(base),
        forall|k: int|
            0 <= k < a@.len() ==> is_function_key((#[trigger] a@[k]).0) && kind_of(a@[k].1@) == key_kind(
                a@[k].0,
            ),
    ensures
        final(p).holds(apply_props(base, pairs_view(a@))),
{
    let ghost all = pairs_view(a@);
    let ghost n = a@.len() as int;
    let mut a = a;
    assert(all.subrange(0, 0) =~= Seq::<(PropKey, PropValue)>::empty());
    assert(pairs_view(a@) =~= all.subrange(0, n));
    while a.len() > 0
        invariant
            n == all.len(),
            a@.len() <= n,
            pairs_view(a@) == all.subrange(n - a@.len(), n),
            forall|k: int|
                0 <= k < a@.len() ==> is_function_key((#[trigger] a@[k]).0) && kind_of(a@[k].1@)
                    == key_kind(a@[k].0),
            p.holds(apply_props(base, all.subrange(0, n - a@.len()))),
        decreases a@.len(),
    {
        let ghost m = n - a@.len();
        let ghost before = a@;
        let (key, v) = a.remove(0);
        assert(a@ =~= before.subrange(1, before.len() as int));
        assert(pairs_view(before)[0] == all[m]);
        assert forall|k: int| 0 <= k < a@.len() implies #[trigger] pairs_view(a@)[k] == all[m + 1 + k] by {
            assert(pairs_view(a@)[k] == pairs_view(before)[k + 1]);
        }
        assert(all.subrange(0, m + 1).drop_last() =~= all.subrange(0, m));
        assert(pairs_view(a@) =~= all.subrange(n - a@.len(), n));
        assert(before[0] == (key, v));
        assert forall|k: int|
            0 <= k < a@.len() implies is_function_key((#[trigger] a@[k]).0) && kind_of(a@[k].1@) == key_kind(a@[k].0) by {
            assert(a@[k] == before[k + 1]);
        }
        p.set(key, v);
    }
    assert(all.subrange(0, n) =~= all);
}

/// Applies the assignments `a`, in order, to the properties of a class.
fn apply_class_props(p: &mut ClassProps, a: Vec<(PropKey, Value)>, Ghost(base): Ghost<Map<PropKey, PropValue>>)
    requires
        old(p).holds(base),
        forall|k: int|
            0 <= k < a@.len() ==> is_class_key((#[trigger] a@[k]).0) && kind_of(a@[k].1@) == key_kind(
                a@[k].0,
            ),
    ensures
        final(p).holds(apply_props(base, pairs_view(a@))),
{
    let ghost all = pairs_view(a@);
    let ghost n = a@.len() as int;
    let mut a = a;
    assert(all.subrange(0, 0) =~= Seq::<(PropKey, PropValue)>::empty());
    assert(pairs_view(a@) =~= all.subrange(0, n));
    while a.len() > 0
        invariant
            n == all.len(),
            a@.len() <= n,
            pairs_view(a@) == all.subrange(n - a@.len(), n),
            forall|k: int|
                0 <= k < a@.len() ==> is_class_key((#[trigger] a@[k]).0) && kind_of(a@[k].1@)
                    == key_kind(a@[k].0),
            p.holds(apply_props(base, all.subrange(0, n - a@.len()))),
        decreases a@.len(),
    {
        let ghost m = n - a@.len();
        let ghost before = a@;
        let (key, v) = a.remove(0);
        assert(a@ =~= before.subrange(1, before.len() as int));
        assert(pairs_view(before)[0] == all[m]);
        assert forall|k: int| 0 <= k < a@.len() implies #[trigger] pairs_view(a@)[k] == all[m + 1 + k] by {
            assert(pairs_view(a@)[k] == pairs_view(before)[k + 1]);
        }
        assert(all.subrange(0, m + 1).drop_last() =~= all.subrange(0, m));
        assert(pairs_view(a@) =~= all.subrange(n - a@.len(), n));
        assert(before[0] == (key, v));
        assert forall|k: int|
            0 <= k < a@.len() implies is_class_key((#[trigger] a@[k]).0) && kind_of(a@[k].1@) == key_kind(a@[k].0) by {
            assert(a@[k] == before[k + 1]);
        }
        p.set(key, v);
    }
    assert(all.subrange(0, n) =~= all);
}

/// Applies the assignments `a`, in order, to the properties of a comment.
fn apply_comment_props(p: &mut CommentProps, a: Vec<(PropKey, Value)>, Ghost(base): Ghost<Map<PropKey, PropValue>>)
    requires
        old(p).holds(base),
        forall|k: int|
            0 <= k < a@.len() ==> is_comment_key((#[trigger] a@[k]).0) && kind_of(a@[k].1@) == key_kind(
                a@[k].0,
            ),
    ensures
        final(p).holds(apply_props(base, pairs_view(a@))),
{
    let ghost all = pairs_view(a@);
    let ghost n = a@.len() as int;
    let mut a = a;
    assert(all.subrange(0, 0) =~= Seq::<(PropKey, PropValue)>::empty());
    assert(pairs_view(a@) =~= all.subrange(0, n));
    while a.len() > 0
        invariant
            n == all.len(),
            a@.len() <= n,
            pairs_view(a@) == all.subrange(n - a@.len(), n),
            forall|k: int|
                0 <= k < a@.len() ==> is_comment_key((#[trigger] a@[k]).0) && kind_of(a@[k].1@)
                    == key_kind(a@[k].0),
            p.holds(apply_props(base, all.subrange(0, n - a@.len()))),
        decreases a@.len(),
    {
        let ghost m = n - a@.len();
        let ghost before = a@;
        let (key, v) = a.remove(0);
        assert(a@ =~= before.subrange(1, before.len() as int));
        assert(pairs_view(before)[0] == all[m]);
        assert forall|k: int| 0 <= k < a@.len() implies #[trigger] pairs_view(a@)[k] == all[m + 1 + k] by {
            assert(pairs_view(a@)[k] == pairs_view(before)[k + 1]);
        }
        assert(all.subrange(0, m + 1).drop_last() =~= all.subrange(0, m));
        assert(pairs_view(a@) =~= all.subrange(n - a@.len(), n));
        assert(before[0] == (key, v));
        assert forall|k: int|
            0 <= k < a@.len() implies is_comment_key((#[trigger] a@[k]).0) && kind_of(a@[k].1@) == key_kind(a@[k].0) by {
            assert(a@[k] == before[k + 1]);
        }
        p.set(key, v);
    }
    assert(all.subrange(0, n) =~= all);
}

/// Applies the assignments `a`, in order, to the properties of a decl.
fn apply_decl_props(p: &mut DeclProps, a: Vec<(PropKey, Value)>, Ghost(base): Ghost<Map<PropKey, PropValue>>)
    requires
        old(p).holds(base),
        forall|k: int|
            0 <= k < a@.len() ==> is_decl_key((#[trigger] a@[k]).0) && kind_of(a@[k].1@) == key_kind(
                a@[k].0,
            ),
    ensures
        final(p).holds(apply_props(base, pairs_view(a@))),
{
    let ghost all = pairs_view(a@);
    let ghost n = a@.len() as int;
    let mut a = a;
    assert(all.subrange(0, 0) =~= Seq::<(PropKey, PropValue)>::empty());
    assert(pairs_view(a@) =~= all.subrange(0, n));
    while a.len() > 0
        invariant
            n == all.len(),
            a@.len() <= n,
            pairs_view(a@) == all.subrange(n - a@.len(), n),
            forall|k: int|
                0 <= k < a@.len() ==> is_decl_key((#[trigger] a@[k]).0) && kind_of(a@[k].1@)
                    == key_kind(a@[k].0),
            p.holds(apply_props(base, all.subrange(0, n - a@.len()))),
        decreases a@.len(),
    {
        let ghost m = n - a@.len();
        let ghost before = a@;
        let (key, v) = a.remove(0);
        assert(a@ =~= before.subrange(1, before.len() as int));
        assert(pairs_view(before)[0] == all[m]);
        assert forall|k: int| 0 <= k < a@.len() implies #[trigger] pairs_view(a@)[k] == all[m + 1 + k] by {
            assert(pairs_view(a@)[k] == pairs_view(before)[k + 1]);
        }
        assert(all.subrange(0, m + 1).drop_last() =~= all.subrange(0, m));
        assert(pairs_view(a@) =~= all.subrange(n - a@.len(), n));
        assert(before[0] == (key, v));
        assert forall|k: int|
            0 <= k < a@.len() implies is_decl_key((#[trigger] a@[k]).0) && kind_of(a@[k].1@) == key_kind(a@[k].0) by {
            assert(a@[k] == before[k + 1]);
        }
        p.set(key, v);
    }
    assert(all.subrange(0, n) =~= all);
}

/// The parser over the tokens of one text. `tokens` holds them all, up to the
/// end-of-input token; `i` is where the last parse stopped; `lexer` is the
/// scanner that gave them, at the end of the text.
pub struct Parser<'a> {
    pub lexer: Lexer<'a>,
    pub i: usize,
    pub tokens: Vec<Token<'a>>,
}

impl<'a> Parser<'a> {
    /// The text being parsed.
    pub open spec fn source(&self) -> &'a str {
        self.lexer.text()
    }

    /// The tokens, as values.
    pub open spec fn token_views(&self) -> Seq<TokenView> {
        self.tokens@.map_values(|t: Token<'a>| t@)
    }

    /// The tokens are those of a well-formed text.
    pub open spec fn wf(&self) -> bool {
        &&& valid_utf8(self.lexer.text().spec_bytes())
        &&& tokens_wf(self.token_views(), self.lexer.text().spec_bytes())
    }

    /// What well-formedness gives of the token at `k`: its value, and a next
    /// token after it unless it ends the input.
    proof fn lemma_token(&self, k: int)
        requires
            self.wf(),
            0 <= k < self.tokens@.len(),
        ensures
            self.token_views()[k] == self.tokens@[k]@,
            self.token_views().len() == self.tokens@.len(),
            self.tokens@[k].typ != TokenType::Eof ==> k + 1 < self.tokens@.len(),
            self.tokens@.len() <= usize::MAX,
    {
        assert(self.tokens.len() == self.tokens@.len());
        let t = self.token_views();
        assert(t[k] == self.tokens@[k]@);
        if self.tokens@[k].typ != TokenType::Eof && k + 1 >= self.tokens@.len() {
            assert(t.last() == t[k]);
        }
    }

    /// Takes all tokens from `lexer`, up to and including the end-of-input
    /// token.
    pub fn new(lexer: Lexer<'a>) -> (r: Self)
        requires
            lexer.wf(),
        ensures
            r.wf(),
            r.source() == lexer.text(),
            r.token_views() == lex_from(lexer.text().spec_bytes(), lexer.pos()),
            r.i == 0,
    {
        let mut lexer = lexer;
        let ghost b = lexer.text().spec_bytes();
        let ghost c0 = lexer.pos();
        let ghost src = lexer.text();
        proof {
            lexer.lemma_wf();
            lemma_lex_from(b, c0);
            lemma_lex_step(b, c0);
        }
        let mut t = lexer.next();
        let mut tokens = vec![t];
        while t.typ != TokenType::Eof
            invariant
                lexer.wf(),
                lexer.text() == src,
                src.spec_bytes() == b,
                tokens@.len() >= 1,
                tokens@.last() == t,
                t.typ == TokenType::Eof ==> tokens@.map_values(|x: Token<'a>| x@) == lex_from(b, c0),
                t.typ != TokenType::Eof ==> tokens@.map_values(|x: Token<'a>| x@) + lex_from(
                    b,
                    lexer.pos(),
                ) == lex_from(b, c0),
            decreases b.len() - lexer.pos() + (if t.typ == TokenType::Eof {
                0int
            } else {
                1int
            }),
        {
            let ghost before = tokens@.map_values(|x: Token<'a>| x@);
            let ghost p = lexer.pos();
            proof {
                lexer.lemma_wf();
                lemma_lex_step(b, lexer.pos());
            }
            t = lexer.next();
            tokens.push(t);
            assert(tokens@.map_values(|x: Token<'a>| x@) =~= before.push(t@));
            assert(before.push(t@) =~= before + seq![t@]);
            proof {
                if t.typ != TokenType::Eof {
                    assert(lex_from(b, p) == seq![t@] + lex_from(b, lexer.pos()));
                    assert(before + lex_from(b, p) =~= before.push(t@) + lex_from(b, lexer.pos()));
                } else {
                    assert(lex_from(b, p) == seq![t@]);
                }
            }
        }
        proof {
            lexer.lemma_wf();
        }
        Parser { lexer, i: 0, tokens }
    }

    /// The index of the `}` that closes the block opening at `i`.
    fn find_close(&self, i: usize) -> (r: Option<usize>)
        requires
            self.wf(),
            i < self.token_views().len(),
            self.tokens@[i as int].typ == TokenType::OpenBrace,
        ensures
            match close_of(self.token_views(), i + 1, 1) {
                Some(c) => r == Some(c as usize) && i < c < self.token_views().len() - 1,
                None => r is None,
            },
    {
        proof {
            self.lemma_token(i as int);
        }
        let mut k = i + 1;
        let mut depth: usize = 1;
        loop
            invariant
                self.wf(),
                i < k < self.token_views().len(),
                1 <= depth <= k,
                close_of(self.token_views(), k as int, depth as nat) == close_of(
                    self.token_views(),
                    i + 1,
                    1,
                ),
            decreases self.token_views().len() - k,
        {
            proof {
                self.lemma_token(k as int);
            }
            let ty = self.tokens[k].typ;
            if ty == TokenType::Eof {
                return None;
            }
            if ty == TokenType::CloseBrace {
                if depth == 1 {
                    return Some(k);
                }
                depth -= 1;
            } else if ty == TokenType::OpenBrace {
                depth += 1;
            }
            k += 1;
        }
    }

    /// The index after the block that opens at `i`.
    fn skip_block(&self, i: usize) -> (r: Result<usize, ParseError>)
        requires
            self.wf(),
            i < self.token_views().len(),
            self.tokens@[i as int].typ == TokenType::OpenBrace,
        ensures
            index_result(r, skip_at(self.token_views(), i as int)),
            r matches Ok(k) ==> i < k < self.token_views().len(),
    {
        proof {
            self.lemma_token(i as int);
        }
        match self.find_close(i) {
            Some(c) => Ok(c + 1),
            None => Err(ParseError::UnterminatedBlock { open: self.tokens[i].start }),
        }
    }

    /// The exact text of the block that opens at `i`, between its braces,
    /// and the index after its `}`.
    pub fn consume_braced_string(&self, i: usize) -> (r: Result<(String, usize), ParseError>)
        requires
            self.wf(),
            i < self.token_views().len(),
        ensures
            text_result(r, block_at(self.token_views(), self.source().spec_bytes(), i as int)),
            index_within(r, i as int, self.token_views().len() as int),
    {
        proof {
            self.lemma_token(i as int);
        }
        let t = self.tokens[i];
        if t.typ == TokenType::Eof {
            return Err(ParseError::PrematureEndOfInput);
        }
        if t.typ != TokenType::OpenBrace {
            return Err(ParseError::UnexpectedStructure { at: t.start });
        }
        match self.find_close(i) {
            None => Err(ParseError::UnterminatedBlock { open: t.start }),
            Some(c) => {
                proof {
                    self.lemma_token(c as int);
                    let tv = self.token_views();
                    assert(tv[i as int].end <= tv[c as int].start);
                }
                let text = text_between(self.lexer.source(), t.end, self.tokens[c].start);
                Ok((text, c + 1))
            },
        }
    }

    /// A text value at `i`: a word, or the exact text of a block.
    fn consume_text(&self, i: usize) -> (r: Result<(String, usize), ParseError>)
        requires
            self.wf(),
            i < self.token_views().len(),
        ensures
            text_result(r, text_at(self.token_views(), self.source().spec_bytes(), i as int)),
            index_within(r, i as int, self.token_views().len() as int),
    {
        proof {
            self.lemma_token(i as int);
        }
        let t = self.tokens[i];
        if t.typ == TokenType::Word {
            Ok((t.word.to_owned(), i + 1))
        } else {
            self.consume_braced_string(i)
        }
    }

    /// The code of a `code` item whose text starts at `i`, and the index
    /// after it and after the block that follows it, if one does.
    pub fn consume_code(&self, i: usize) -> (r: Result<(String, usize), ParseError>)
        requires
            self.wf(),
            i < self.token_views().len(),
        ensures
            text_result(r, code_at(self.token_views(), self.source().spec_bytes(), i as int)),
            index_within(r, i as int, self.token_views().len() as int),
    {
        match self.consume_text(i) {
            Ok((c, e)) => {
                proof {
                    self.lemma_token(e as int);
                }
                if self.tokens[e].typ == TokenType::OpenBrace {
                    match self.skip_block(e) {
                        Ok(e2) => Ok((c, e2)),
                        Err(x) => Err(x),
                    }
                } else {
                    Ok((c, e))
                }
            },
            Err(x) => Err(x),
        }
    }

    fn read_unsigned(&self, j: usize, kw: usize) -> (r: Result<(u32, usize), ParseError>)
        requires
            self.wf(),
            j < self.token_views().len(),
        ensures
            value_result(r, unsigned_at(self.token_views(), j as int, kw as int)),
            index_within(r, j as int, self.token_views().len() as int),
    {
        proof {
            self.lemma_token(j as int);
        }
        let t = self.tokens[j];
        if t.typ == TokenType::Word {
            if let Some(n) = parse_u32(t.word.as_bytes()) {
                return Ok((n, j + 1));
            }
        }
        if t.typ == TokenType::Eof {
            Err(ParseError::PrematureEndOfInput)
        } else {
            Err(ParseError::InvalidNumericLiteral { keyword: kw, start: t.start, end: t.end })
        }
    }

    fn read_signed(&self, j: usize, kw: usize) -> (r: Result<(i32, usize), ParseError>)
        requires
            self.wf(),
            j < self.token_views().len(),
        ensures
            value_result(r, signed_at(self.token_views(), j as int, kw as int)),
            index_within(r, j as int, self.token_views().len() as int),
    {
        proof {
            self.lemma_token(j as int);
        }
        let t = self.tokens[j];
        if t.typ == TokenType::Word {
            if let Some(n) = parse_i32(t.word.as_bytes()) {
                return Ok((n, j + 1));
            }
        }
        if t.typ == TokenType::Eof {
            Err(ParseError::PrematureEndOfInput)
        } else {
            Err(ParseError::InvalidNumericLiteral { keyword: kw, start: t.start, end: t.end })
        }
    }

    fn read_decimal(&self, j: usize, kw: usize) -> (r: Result<(Decimal, usize), ParseError>)
        requires
            self.wf(),
            j < self.token_views().len(),
        ensures
            value_result(r, decimal_at(self.token_views(), j as int, kw as int)),
            index_within(r, j as int, self.token_views().len() as int),
    {
        proof {
            self.lemma_token(j as int);
        }
        let t = self.tokens[j];
        if t.typ == TokenType::Word {
            if let Some(d) = parse_decimal(t.word.as_bytes()) {
                return Ok((d, j + 1));
            }
        }
        if t.typ == TokenType::Eof {
            Err(ParseError::PrematureEndOfInput)
        } else {
            Err(ParseError::InvalidNumericLiteral { keyword: kw, start: t.start, end: t.end })
        }
    }

    /// The property that keyword `kw`, at offset `kw_at`, sets, its value
    /// from `j` on, and the index after the value.
    fn read_value(&self, j: usize, kw: Keyword, kw_at: usize) -> (r: Result<(PropKey, Value, usize), ParseError>)
        requires
            self.wf(),
            j < self.token_views().len(),
        ensures
            prop_result(r, value_at(self.token_views(), self.source().spec_bytes(), j as int, kw, kw_at as int)),
            r matches Ok((_, _, k)) ==> j <= k < self.token_views().len(),
            r matches Ok((k, v, _)) ==> k == keyword_key(kw) && kind_of(v@) == key_kind(k),
    {
        reveal(value_at);
        match kw {
            Keyword::Vis(v) => Ok((PropKey::Visibility, Value::Vis(v), j)),
            Keyword::Prop(k) => {
                if Self::is_flag(k) {
                    Ok((k, Value::Flag(true), j))
                } else if Self::is_unsigned(k) {
                    match self.read_unsigned(j, kw_at) {
                        Ok((n, e)) => Ok((k, Value::Unsigned(n), e)),
                        Err(x) => Err(x),
                    }
                } else if Self::is_signed(k) {
                    match self.read_signed(j, kw_at) {
                        Ok((n, e)) => Ok((k, Value::Signed(n), e)),
                        Err(x) => Err(x),
                    }
                } else if Self::is_real(k) {
                    match self.read_decimal(j, kw_at) {
                        Ok((d, e)) => Ok((k, Value::Real(d), e)),
                        Err(x) => Err(x),
                    }
                } else if Self::is_vis(k) {
                    Err(ParseError::UnexpectedStructure { at: kw_at })
                } else {
                    match self.consume_text(j) {
                        Ok((x, e)) => Ok((k, Value::Text(x), e)),
                        Err(x) => Err(x),
                    }
                }
            },
        }
    }

    fn is_flag(k: PropKey) -> (r: bool)
        ensures
            r == (key_kind(k) == Kind::Flag),
    {
        match k {
            PropKey::Open | PropKey::Hide | PropKey::Deactivate | PropKey::Visible | PropKey::Modal
            | PropKey::NonModal | PropKey::Noborder | PropKey::Resizable | PropKey::Hotspot
            | PropKey::Divider | PropKey::Selected | PropKey::CLinkage | PropKey::InSource
            | PropKey::InHeader | PropKey::Global | PropKey::Local => true,
            _ => false,
        }
    }

    fn is_unsigned(k: PropKey) -> (r: bool)
        ensures
            r == (key_kind(k) == Kind::Unsigned),
    {
        match k {
            PropKey::Color | PropKey::SelectionColor | PropKey::Labelcolor | PropKey::Textcolor => true,
            _ => false,
        }
    }

    fn is_signed(k: PropKey) -> (r: bool)
        ensures
            r == (key_kind(k) == Kind::Signed),
    {
        match k {
            PropKey::Labelfont | PropKey::Labelsize | PropKey::Align | PropKey::When
            | PropKey::Textfont | PropKey::Textsize | PropKey::Gap => true,
            _ => false,
        }
    }

    fn is_real(k: PropKey) -> (r: bool)
        ensures
            r == (key_kind(k) == Kind::Real),
    {
        match k {
            PropKey::Minimum | PropKey::Maximum | PropKey::Step | PropKey::SliderSize
            | PropKey::Size => true,
            _ => false,
        }
    }

    fn is_vis(k: PropKey) -> (r: bool)
        ensures
            r == (key_kind(k) == Kind::Vis),
    {
        match k {
            PropKey::Visibility => true,
            _ => false,
        }
    }

    /// The assignments of the property block that opens at `i`, for a record
    /// of kind `rk`, and the index after the block.
    fn consume_props(&self, i: usize, rk: Record) -> (r: Result<(Vec<(PropKey, Value)>, usize), ParseError>)
        requires
            self.wf(),
            i < self.token_views().len(),
        ensures
            props_result(r, props_at(self.token_views(), self.source().spec_bytes(), rk, i as int)),
            index_within(r, i as int, self.token_views().len() as int),
            r matches Ok((a, _)) ==> forall|k: int|
                0 <= k < a@.len() ==> record_key(rk, (#[trigger] a@[k]).0) && kind_of(a@[k].1@)
                    == key_kind(a@[k].0),
    {
        let ghost tv = self.token_views();
        let ghost s = self.source().spec_bytes();
        proof {
            self.lemma_token(i as int);
        }
        let t = self.tokens[i];
        if t.typ == TokenType::Eof {
            return Err(ParseError::PrematureEndOfInput);
        }
        if t.typ != TokenType::OpenBrace {
            return Err(ParseError::UnexpectedStructure { at: t.start });
        }
        let ghost target = props_at(tv, s, rk, i as int);
        let mut acc: Vec<(PropKey, Value)> = Vec::new();
        let mut j = i + 1;
        assert(pairs_view(acc@) =~= Seq::<(PropKey, PropValue)>::empty());
        loop
            invariant
                self.wf(),
                tv == self.token_views(),
                s == self.source().spec_bytes(),
                i < j < self.token_views().len(),
                t == self.tokens@[i as int],
                target == props_at(tv, s, rk, i as int),
                target == prop_items(tv, s, rk, j as int, t.start as int, pairs_view(acc@)),
                forall|k: int|
                    0 <= k < acc@.len() ==> record_key(rk, (#[trigger] acc@[k]).0) && kind_of(
                        acc@[k].1@,
                    ) == key_kind(acc@[k].0),
            decreases self.token_views().len() - j,
        {
            proof {
                self.lemma_token(j as int);
            }
            let u = self.tokens[j];
            if u.typ == TokenType::Eof {
                return Err(ParseError::UnterminatedBlock { open: t.start });
            }
            if u.typ == TokenType::CloseBrace {
                return Ok((acc, j + 1));
            }
            if u.typ == TokenType::OpenBrace {
                match self.skip_block(j) {
                    Ok(e) => {
                        j = e;
                    },
                    Err(x) => {
                        return Err(x);
                    },
                }
            } else {
                match keyword_lookup(rk, u.word) {
                    None => {
                        j += 1;
                    },
                    Some(kw) => {
                        proof {
                            lemma_keyword_fits(rk, u.word@);
                        }
                        match self.read_value(j + 1, kw, u.start) {
                            Ok((k, v, e)) => {
                                let ghost before = acc@;
                                acc.push((k, v));
                                assert(pairs_view(acc@) =~= pairs_view(before).push((k, v@)));
                                j = e;
                            },
                            Err(x) => {
                                return Err(error_inside(x, t.start));
                            },
                        }
                    },
                }
            }
        }
    }

    /// Whether the block that opens at `k` holds children: it is empty, or
    /// it starts with a widget.
    fn starts_children(&self, k: usize) -> (r: bool)
        requires
            self.wf(),
            k < self.token_views().len(),
        ensures
            r == starts_children(self.token_views(), k as int),
    {
        proof {
            self.lemma_token(k as int);
        }
        if k + 1 < self.tokens.len() {
            proof {
                self.lemma_token(k + 1);
            }
            self.tokens[k + 1].typ == TokenType::CloseBrace || is_type_tag_token(&self.tokens[k + 1])
        } else {
            false
        }
    }

    /// The widget whose type stands at `i`, and the index after it.
    pub fn consume_widget(&self, i: usize) -> (r: Result<(Widget, usize), ParseError>)
        requires
            self.wf(),
            i < self.token_views().len(),
        ensures
            widget_result(r, widget_at(self.token_views(), self.source().spec_bytes(), i as int)),
            index_within(r, i as int, self.token_views().len() as int),
        decreases self.token_views().len() - i,
    {
        let ghost tv = self.token_views();
        let ghost s = self.source().spec_bytes();
        proof {
            self.lemma_token(i as int);
        }
        let t = self.tokens[i];
        if t.typ == TokenType::Eof {
            return Err(ParseError::PrematureEndOfInput);
        }
        let (name, j) = match self.consume_text(i + 1) {
            Ok(x) => x,
            Err(e) => {
                return Err(e);
            },
        };
        let (a, k) = match self.consume_props(j, Record::Widget) {
            Ok(x) => x,
            Err(e) => {
                return Err(e);
            },
        };
        let ghost av = pairs_view(a@);
        let mut props = WidgetProps::default();
        apply_widget_props(&mut props, a, Ghost(Map::empty()));
        let ghost mut m = WidgetModel {
            typ: tv[i as int].word,
            name: name@,
            props: apply_props(Map::empty(), av),
            children: seq![],
        };
        let mut w = Widget { typ: t.word.to_owned(), name, props, children: Vec::new() };
        let ghost target = widget_at(tv, s, i as int);
        let mut k = k;
        while self.tokens[k].typ == TokenType::OpenBrace && !self.starts_children(k)
            invariant
                self.wf(),
                tv == self.token_views(),
                s == self.source().spec_bytes(),
                i < k < tv.len(),
                target == widget_at(tv, s, i as int),
                target == widget_rest(tv, s, k as int, m),
                w.models(m),
                w.children@.len() == 0,
            decreases tv.len() - k,
        {
            proof {
                self.lemma_token(k as int);
            }
            let (a2, e) = match self.consume_props(k, Record::Widget) {
                Ok(x) => x,
                Err(x) => {
                    return Err(x);
                },
            };
            let ghost av2 = pairs_view(a2@);
            apply_widget_props(&mut w.props, a2, Ghost(m.props));
            proof {
                m = WidgetModel {
                    typ: m.typ,
                    name: m.name,
                    props: apply_props(m.props, av2),
                    children: m.children,
                };
            }
            k = e;
        }
        proof {
            self.lemma_token(k as int);
        }
        if self.tokens[k].typ != TokenType::OpenBrace {
            return Ok((w, k));
        }
        let open_at = self.tokens[k].start;
        let mut j = k + 1;
        loop
            invariant
                self.wf(),
                tv == self.token_views(),
                s == self.source().spec_bytes(),
                i < j < tv.len(),
                target == widget_at(tv, s, i as int),
                target == children_at(tv, s, j as int, open_at as int, m),
                w.models(m),
            decreases tv.len() - j,
        {
            proof {
                self.lemma_token(j as int);
            }
            let u = self.tokens[j];
            if u.typ == TokenType::Eof {
                return Err(ParseError::UnterminatedBlock { open: open_at });
            }
            if u.typ == TokenType::CloseBrace {
                return Ok((w, j + 1));
            }
            if u.typ == TokenType::OpenBrace {
                match self.skip_block(j) {
                    Ok(e) => {
                        j = e;
                    },
                    Err(x) => {
                        return Err(x);
                    },
                }
            } else if is_type_tag_token(&u) {
                match self.consume_widget(j) {
                    Ok((c, e)) => {
                        let ghost cm = match widget_at(tv, s, j as int) {
                            Ok((cm, _)) => cm,
                            Err(_) => m,
                        };
                        let ghost before = w.children@;
                        assert(forall|q: int|
                            0 <= q < before.len() ==> #[trigger] before[q].models(m.children[q]));
                        assert(c.models(cm));
                        w.children.push(c);
                        proof {
                            let m2 = WidgetModel {
                                typ: m.typ,
                                name: m.name,
                                props: m.props,
                                children: m.children.push(cm),
                            };
                            assert forall|q: int| 0 <= q < m2.children.len() implies #[trigger] w.children@[q].models(
                                m2.children[q],
                            ) by {
                                if q < before.len() {
                                    assert(w.children@[q] == before[q]);
                                    assert(m2.children[q] == m.children[q]);
                                    assert(before[q].models(m.children[q]));
                                } else {
                                    assert(w.children@[q] == c);
                                    assert(m2.children[q] == cm);
                                }
                            }
                            m = m2;
                        }
                        j = e;
                    },
                    Err(x) => {
                        return Err(error_inside(x, open_at));
                    },
                }
            } else {
                j += 1;
            }
        }
    }

    /// The function whose keyword stands at `i`, and the index after it.
    pub fn consume_func(&self, i: usize) -> (r: Result<(Function, usize), ParseError>)
        requires
            self.wf(),
            i < self.token_views().len(),
        ensures
            function_result(r, function_at(self.token_views(), self.source().spec_bytes(), i as int)),
            index_within(r, i as int, self.token_views().len() as int),
    {
        let ghost tv = self.token_views();
        let ghost s = self.source().spec_bytes();
        proof {
            self.lemma_token(i as int);
        }
        if self.tokens[i].typ == TokenType::Eof {
            return Err(ParseError::PrematureEndOfInput);
        }
        let (name, j) = match self.consume_braced_string(i + 1) {
            Ok(x) => x,
            Err(e) => {
                return Err(e);
            },
        };
        let (a, k) = match self.consume_props(j, Record::Function) {
            Ok(x) => x,
            Err(e) => {
                return Err(e);
            },
        };
        let ghost av = pairs_view(a@);
        let mut props = FunctionProps::default();
        apply_function_props(&mut props, a, Ghost(Map::empty()));
        let ghost mut fm = FunctionModel {
            name: name@,
            props: apply_props(Map::empty(), av),
            code: None,
            widgets: seq![],
        };
        let mut f = Function { name, props, code: None, widgets: Vec::new() };
        proof {
            self.lemma_token(k as int);
        }
        if self.tokens[k].typ != TokenType::OpenBrace {
            return Ok((f, k));
        }
        let ghost target = function_at(tv, s, i as int);
        let open_at = self.tokens[k].start;
        let mut j = k + 1;
        loop
            invariant
                self.wf(),
                tv == self.token_views(),
                s == self.source().spec_bytes(),
                i < j < tv.len(),
                target == function_at(tv, s, i as int),
                target == body_at(tv, s, j as int, open_at as int, fm),
                f.models(fm),
            decreases tv.len() - j,
        {
            proof {
                self.lemma_token(j as int);
            }
            let u = self.tokens[j];
            if u.typ == TokenType::Eof {
                return Err(ParseError::UnterminatedBlock { open: open_at });
            }
            if u.typ == TokenType::CloseBrace {
                return Ok((f, j + 1));
            }
            if u.typ == TokenType::OpenBrace {
                match self.skip_block(j) {
                    Ok(e) => {
                        j = e;
                    },
                    Err(x) => {
                        return Err(x);
                    },
                }
            } else if u.typ == TokenType::Word && same_text(u.word, "code") {
                match self.consume_code(j + 1) {
                    Ok((c, e)) => {
                        proof {
                            fm = FunctionModel {
                                name: fm.name,
                                props: fm.props,
                                code: Some(c@),
                                widgets: fm.widgets,
                            };
                        }
                        f.code = Some(c);
                        j = e;
                    },
                    Err(x) => {
                        return Err(error_inside(x, open_at));
                    },
                }
            } else if is_type_tag_token(&u) {
                match self.consume_widget(j) {
                    Ok((w, e)) => {
                        let ghost wm = match widget_at(tv, s, j as int) {
                            Ok((wm, _)) => wm,
                            Err(_) => WidgetModel { typ: seq![], name: seq![], props: Map::empty(), children: seq![] },
                        };
                        let ghost before = f.widgets@;
                        assert(forall|q: int|
                            0 <= q < before.len() ==> #[trigger] before[q].models(fm.widgets[q]));
                        assert(w.models(wm));
                        f.widgets.push(w);
                        proof {
                            let fm2 = FunctionModel {
                                name: fm.name,
                                props: fm.props,
                                code: fm.code,
                                widgets: fm.widgets.push(wm),
                            };
                            assert forall|q: int| 0 <= q < fm2.widgets.len() implies #[trigger] f.widgets@[q].models(
                                fm2.widgets[q],
                            ) by {
                                if q < before.len() {
                                    assert(f.widgets@[q] == before[q]);
                                    assert(fm2.widgets[q] == fm.widgets[q]);
                                } else {
                                    assert(f.widgets@[q] == w);
                                    assert(fm2.widgets[q] == wm);
                                }
                            }
                            fm = fm2;
                        }
                        j = e;
                    },
                    Err(x) => {
                        return Err(error_inside(x, open_at));
                    },
                }
            } else {
                j += 1;
            }
        }
    }

    /// The class whose keyword stands at `i`, and the index after it.
    pub fn consume_class(&self, i: usize) -> (r: Result<(Class, usize), ParseError>)
        requires
            self.wf(),
            i < self.token_views().len(),
        ensures
            class_result(r, class_at(self.token_views(), self.source().spec_bytes(), i as int)),
            index_within(r, i as int, self.token_views().len() as int),
    {
        let ghost tv = self.token_views();
        let ghost s = self.source().spec_bytes();
        proof {
            self.lemma_token(i as int);
        }
        if self.tokens[i].typ == TokenType::Eof {
            return Err(ParseError::PrematureEndOfInput);
        }
        let (name, j) = match self.consume_text(i + 1) {
            Ok(x) => x,
            Err(e) => {
                return Err(e);
            },
        };
        let (a, k) = match self.consume_props(j, Record::Class) {
            Ok(x) => x,
            Err(e) => {
                return Err(e);
            },
        };
        let ghost av = pairs_view(a@);
        let mut props = ClassProps::default();
        apply_class_props(&mut props, a, Ghost(Map::empty()));
        let ghost mut cm = ClassModel { name: name@, props: apply_props(Map::empty(), av), functions: seq![] };
        let mut c = Class { name, props, functions: Vec::new() };
        proof {
            self.lemma_token(k as int);
        }
        if self.tokens[k].typ != TokenType::OpenBrace {
            return Ok((c, k));
        }
        let ghost target = class_at(tv, s, i as int);
        let open_at = self.tokens[k].start;
        let mut j = k + 1;
        loop
            invariant
                self.wf(),
                tv == self.token_views(),
                s == self.source().spec_bytes(),
                i < j < tv.len(),
                target == class_at(tv, s, i as int),
                target == class_body_at(tv, s, j as int, open_at as int, cm),
                c.models(cm),
            decreases tv.len() - j,
        {
            proof {
                self.lemma_token(j as int);
            }
            let u = self.tokens[j];
            if u.typ == TokenType::Eof {
                return Err(ParseError::UnterminatedBlock { open: open_at });
            }
            if u.typ == TokenType::CloseBrace {
                return Ok((c, j + 1));
            }
            if u.typ == TokenType::OpenBrace {
                match self.skip_block(j) {
                    Ok(e) => {
                        j = e;
                    },
                    Err(x) => {
                        return Err(x);
                    },
                }
            } else if u.typ == TokenType::Word && same_text(u.word, "Function") {
                match self.consume_func(j) {
                    Ok((f, e)) => {
                        let ghost fm = match function_at(tv, s, j as int) {
                            Ok((fm, _)) => fm,
                            Err(_) => FunctionModel { name: seq![], props: Map::empty(), code: None, widgets: seq![] },
                        };
                        let ghost before = c.functions@;
                        assert(forall|q: int|
                            0 <= q < before.len() ==> #[trigger] before[q].models(cm.functions[q]));
                        assert(f.models(fm));
                        c.functions.push(f);
                        proof {
                            let cm2 = ClassModel { name: cm.name, props: cm.props, functions: cm.functions.push(fm) };
                            assert forall|q: int| 0 <= q < cm2.functions.len() implies #[trigger] c.functions@[q].models(
                                cm2.functions[q],
                            ) by {
                                if q < before.len() {
                                    assert(c.functions@[q] == before[q]);
                                    assert(cm2.functions[q] == cm.functions[q]);
                                } else {
                                    assert(c.functions@[q] == f);
                                    assert(cm2.functions[q] == fm);
                                }
                            }
                            cm = cm2;
                        }
                        j = e;
                    },
                    Err(x) => {
                        return Err(error_inside(x, open_at));
                    },
                }
            } else if u.typ == TokenType::Word && same_text(u.word, "comment") {
                match self.consume_text(j + 1) {
                    Ok((x, e)) => {
                        let ghost xv = x@;
                        c.props.set(PropKey::Comment, Value::Text(x));
                        proof {
                            cm = ClassModel {
                                name: cm.name,
                                props: cm.props.insert(PropKey::Comment, PropValue::Text(xv)),
                                functions: cm.functions,
                            };
                        }
                        j = e;
                    },
                    Err(x) => {
                        return Err(error_inside(x, open_at));
                    },
                }
            } else {
                j += 1;
            }
        }
    }

    /// The comment whose keyword stands at `i`, and the index after it.
    pub fn consume_comment(&self, i: usize) -> (r: Result<(Comment, usize), ParseError>)
        requires
            self.wf(),
            i < self.token_views().len(),
        ensures
            comment_result(r, note_at(self.token_views(), self.source().spec_bytes(), i as int, Record::Comment, Map::empty())),
            index_within(r, i as int, self.token_views().len() as int),
    {
        proof {
            self.lemma_token(i as int);
        }
        if self.tokens[i].typ == TokenType::Eof {
            return Err(ParseError::PrematureEndOfInput);
        }
        let (text, j) = match self.consume_text(i + 1) {
            Ok(x) => x,
            Err(e) => {
                return Err(e);
            },
        };
        let mut props = CommentProps::default();
        proof {
            self.lemma_token(j as int);
        }
        if self.tokens[j].typ == TokenType::OpenBrace {
            let (a, k) = match self.consume_props(j, Record::Comment) {
                Ok(x) => x,
                Err(e) => {
                    return Err(e);
                },
            };
            apply_comment_props(&mut props, a, Ghost(Map::empty()));
            Ok((Comment { comment: text, props }, k))
        } else {
            Ok((Comment { comment: text, props }, j))
        }
    }

    /// The declaration whose keyword stands at `i`, and the index after it.
    pub fn consume_decl(&self, i: usize) -> (r: Result<(Decl, usize), ParseError>)
        requires
            self.wf(),
            i < self.token_views().len(),
        ensures
            decl_result(r, note_at(self.token_views(), self.source().spec_bytes(), i as int, Record::Decl, Map::empty())),
            index_within(r, i as int, self.token_views().len() as int),
    {
        proof {
            self.lemma_token(i as int);
        }
        if self.tokens[i].typ == TokenType::Eof {
            return Err(ParseError::PrematureEndOfInput);
        }
        let (text, j) = match self.consume_text(i + 1) {
            Ok(x) => x,
            Err(e) => {
                return Err(e);
            },
        };
        let mut props = DeclProps::default();
        proof {
            self.lemma_token(j as int);
        }
        if self.tokens[j].typ == TokenType::OpenBrace {
            let (a, k) = match self.consume_props(j, Record::Decl) {
                Ok(x) => x,
                Err(e) => {
                    return Err(e);
                },
            };
            apply_decl_props(&mut props, a, Ghost(Map::empty()));
            Ok((Decl { decl: text, props }, k))
        } else {
            Ok((Decl { decl: text, props }, j))
        }
    }

    /// The project that the tokens describe, and the index of the
    /// end-of-input token.
    fn parse_items(&self) -> (r: Result<(Ast, usize), ParseError>)
        requires
            self.wf(),
        ensures
            match (r, parse_tokens(self.token_views(), self.source().spec_bytes())) {
                (Ok((a, _)), Ok(m)) => a.models(m),
                (Err(x), Err(y)) => x == y,
                _ => false,
            },
            r matches Ok((_, k)) ==> k == self.token_views().len() - 1,
    {
        let ghost tv = self.token_views();
        let ghost s = self.source().spec_bytes();
        let ghost target = parse_tokens(tv, s);
        let mut a = Ast {
            version: None,
            i18n_type: None,
            header_name: None,
            code_name: None,
            classes: Vec::new(),
            widget_classes: Vec::new(),
            functions: Vec::new(),
            comments: Vec::new(),
            decls: Vec::new(),
        };
        let ghost mut am = empty_ast();
        let mut j: usize = 0;
        loop
            invariant
                self.wf(),
                tv == self.token_views(),
                s == self.source().spec_bytes(),
                j < tv.len(),
                target == parse_tokens(tv, s),
                target == items_at(tv, s, j as int, am),
                a.models(am),
            decreases tv.len() - j,
        {
            proof {
                self.lemma_token(j as int);
            }
            let t = self.tokens[j];
            if t.typ == TokenType::Eof {
                assert(j == tv.len() - 1);
                return Ok((a, j));
            }
            if t.typ == TokenType::CloseBrace {
                return Err(ParseError::UnexpectedStructure { at: t.start });
            }
            if t.typ == TokenType::OpenBrace {
                match self.skip_block(j) {
                    Ok(e) => {
                        j = e;
                    },
                    Err(x) => {
                        return Err(x);
                    },
                }
            } else if same_text(t.word, "version") {
                match self.read_decimal(j + 1, t.start) {
                    Ok((d, e)) => {
                        a.version = Some(d);
                        proof {
                            am = AstModel { version: Some(d), ..am };
                        }
                        j = e;
                    },
                    Err(x) => {
                        return Err(x);
                    },
                }
            } else if same_text(t.word, "i18n_type") {
                a.i18n_type = Some(true);
                proof {
                    am = AstModel { i18n_type: Some(true), ..am };
                    self.lemma_token(j + 1);
                }
                if self.tokens[j + 1].typ == TokenType::Word {
                    j += 2;
                } else {
                    j += 1;
                }
            } else if same_text(t.word, "header_name") {
                match self.consume_text(j + 1) {
                    Ok((x, e)) => {
                        proof {
                            am = AstModel { header_name: Some(x@), ..am };
                        }
                        a.header_name = Some(x);
                        j = e;
                    },
                    Err(x) => {
                        return Err(x);
                    },
                }
            } else if same_text(t.word, "code_name") {
                match self.consume_text(j + 1) {
                    Ok((x, e)) => {
                        proof {
                            am = AstModel { code_name: Some(x@), ..am };
                        }
                        a.code_name = Some(x);
                        j = e;
                    },
                    Err(x) => {
                        return Err(x);
                    },
                }
            } else if same_text(t.word, "class") {
                match self.consume_class(j) {
                    Ok((c, e)) => {
                        let ghost cm = match class_at(tv, s, j as int) {
                            Ok((cm, _)) => cm,
                            Err(_) => ClassModel { name: seq![], props: Map::empty(), functions: seq![] },
                        };
                        let ghost before = a.classes@;
                        assert(forall|q: int|
                            0 <= q < before.len() ==> #[trigger] before[q].models(am.classes[q]));
                        assert(c.models(cm));
                        a.classes.push(c);
                        proof {
                            let am2 = AstModel { classes: am.classes.push(cm), ..am };
                            assert forall|q: int| 0 <= q < am2.classes.len() implies #[trigger] a.classes@[q].models(
                                am2.classes[q],
                            ) by {
                                if q < before.len() {
                                    assert(a.classes@[q] == before[q]);
                                } else {
                                    assert(a.classes@[q] == c);
                                }
                            }
                            am = am2;
                        }
                        j = e;
                    },
                    Err(x) => {
                        return Err(x);
                    },
                }
            } else if same_text(t.word, "Function") {
                match self.consume_func(j) {
                    Ok((f, e)) => {
                        let ghost fm = match function_at(tv, s, j as int) {
                            Ok((fm, _)) => fm,
                            Err(_) => FunctionModel { name: seq![], props: Map::empty(), code: None, widgets: seq![] },
                        };
                        let ghost before = a.functions@;
                        assert(forall|q: int|
                            0 <= q < before.len() ==> #[trigger] before[q].models(am.functions[q]));
                        assert(f.models(fm));
                        a.functions.push(f);
                        proof {
                            let am2 = AstModel { functions: am.functions.push(fm), ..am };
                            assert forall|q: int| 0 <= q < am2.functions.len() implies #[trigger] a.functions@[q].models(
                                am2.functions[q],
                            ) by {
                                if q < before.len() {
                                    assert(a.functions@[q] == before[q]);
                                } else {
                                    assert(a.functions@[q] == f);
                                }
                            }
                            am = am2;
                        }
                        j = e;
                    },
                    Err(x) => {
                        return Err(x);
                    },
                }
            } else if same_text(t.word, "comment") {
                match self.consume_comment(j) {
                    Ok((c, e)) => {
                        let ghost cm = match note_at(tv, s, j as int, Record::Comment, Map::empty()) {
                            Ok((cm, _)) => cm,
                            Err(_) => NoteModel { text: seq![], props: Map::empty() },
                        };
                        let ghost before = a.comments@;
                        assert(forall|q: int|
                            0 <= q < before.len() ==> #[trigger] before[q].models(am.comments[q]));
                        assert(c.models(cm));
                        a.comments.push(c);
                        proof {
                            let am2 = AstModel { comments: am.comments.push(cm), ..am };
                            assert forall|q: int| 0 <= q < am2.comments.len() implies #[trigger] a.comments@[q].models(
                                am2.comments[q],
                            ) by {
                                if q < before.len() {
                                    assert(a.comments@[q] == before[q]);
                                } else {
                                    assert(a.comments@[q] == c);
                                }
                            }
                            am = am2;
                        }
                        j = e;
                    },
                    Err(x) => {
                        return Err(x);
                    },
                }
            } else if same_text(t.word, "decl") {
                match self.consume_decl(j) {
                    Ok((d, e)) => {
                        let ghost dm = match note_at(tv, s, j as int, Record::Decl, Map::empty()) {
                            Ok((dm, _)) => dm,
                            Err(_) => NoteModel { text: seq![], props: Map::empty() },
                        };
                        let ghost before = a.decls@;
                        assert(forall|q: int|
                            0 <= q < before.len() ==> #[trigger] before[q].models(am.decls[q]));
                        assert(d.models(dm));
                        a.decls.push(d);
                        proof {
                            let am2 = AstModel { decls: am.decls.push(dm), ..am };
                            assert forall|q: int| 0 <= q < am2.decls.len() implies #[trigger] a.decls@[q].models(
                                am2.decls[q],
                            ) by {
                                if q < before.len() {
                                    assert(a.decls@[q] == before[q]);
                                } else {
                                    assert(a.decls@[q] == d);
                                }
                            }
                            am = am2;
                        }
                        j = e;
                    },
                    Err(x) => {
                        return Err(x);
                    },
                }
            } else if same_text(t.word, "widget_class") {
                match self.consume_widget(j) {
                    Ok((w, e)) => {
                        let ghost wm = match widget_at(tv, s, j as int) {
                            Ok((wm, _)) => wm,
                            Err(_) => WidgetModel { typ: seq![], name: seq![], props: Map::empty(), children: seq![] },
                        };
                        let ghost before = a.widget_classes@;
                        assert(forall|q: int|
                            0 <= q < before.len() ==> #[trigger] before[q].models(am.widget_classes[q]));
                        assert(w.models(wm));
                        a.widget_classes.push(w);
                        proof {
                            let am2 = AstModel { widget_classes: am.widget_classes.push(wm), ..am };
                            assert forall|q: int|
                                0 <= q < am2.widget_classes.len() implies #[trigger] a.widget_classes@[q].models(
                                am2.widget_classes[q],
                            ) by {
                                if q < before.len() {
                                    assert(a.widget_classes@[q] == before[q]);
                                } else {
                                    assert(a.widget_classes@[q] == w);
                                }
                            }
                            am = am2;
                        }
                        j = e;
                    },
                    Err(x) => {
                        return Err(x);
                    },
                }
            } else {
                j += 1;
            }
        }
    }

    /// Parses the whole token sequence into a project. The parse either
    /// succeeds whole or stops at the first fault; `i` is left at the
    /// end-of-input token after a success.
    pub fn parse(&mut self) -> (r: Result<Ast, ParseError>)
        requires
            old(self).wf(),
        ensures
            final(self).wf(),
            final(self).source() == old(self).source(),
            final(self).token_views() == old(self).token_views(),
            ast_result(r, parse_tokens(old(self).token_views(), old(self).source().spec_bytes())),
            r is Ok ==> final(self).i == final(self).tokens@.len() - 1,
            r is Err ==> final(self).i == old(self).i,
    {
        match self.parse_items() {
            Ok((a, k)) => {
                self.i = k;
                Ok(a)
            },
            Err(e) => Err(e),
        }
    }
}

/// Parses a whole text into a project.
pub fn parse_text(source: &str) -> (r: Result<Ast, ParseError>)
    ensures
        ast_result(r, parse_model(source.spec_bytes())),
{
    let lexer = Lexer::new(source);
    let mut p = Parser::new(lexer);
    p.parse()

}

} // verus!
