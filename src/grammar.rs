use crate::ast::{
    is_class_key, is_comment_key, is_decl_key, is_function_key, is_widget_key, key_kind,
    AstModel, ClassModel, FunctionModel, Keyword, Kind, NoteModel, PropKey, PropValue, Visibility,
    WidgetModel,
};
use crate::numeral::{decimal_numeral, i32_numeral, u32_numeral, Decimal};
use crate::lexer::tokenize;
use crate::token::{TokenType, TokenView};
use vstd::prelude::*;
use vstd::utf8::*;

verus! {

/// Why a text is not a project.
#[derive(Debug, Copy, Clone, PartialEq, Eq, Structural)]
pub enum ParseError {
    /// A property that takes a number was given other text: the offset of
    /// the property's keyword, and the span of the token after it.
    InvalidNumericLiteral { keyword: usize, start: usize, end: usize },
    /// The text ends inside a block: the offset of the block's `{`.
    UnterminatedBlock { open: usize },
    /// A token of another kind stands where the grammar needs a `{` or a
    /// word: its offset.
    UnexpectedStructure { at: usize },
    /// The text ends where a token is needed.
    PrematureEndOfInput,
}

/// The kinds of record that a property block fills.
#[derive(Debug, Copy, Clone, PartialEq, Eq, Structural)]
pub enum Record {
    Widget,
    Function,
    Class,
    Comment,
    Decl,
}

/// The keywords of a widget's property block.
#[verifier::opaque]
pub open spec fn widget_keyword(w: Seq<char>) -> Option<Keyword> {
    if w == "open"@ {
        Some(Keyword::Prop(PropKey::Open))
    } else if w == "hide"@ {
        Some(Keyword::Prop(PropKey::Hide))
    } else if w == "deactivate"@ {
        Some(Keyword::Prop(PropKey::Deactivate))
    } else if w == "divider"@ {
        Some(Keyword::Prop(PropKey::Divider))
    } else if w == "resizable"@ {
        Some(Keyword::Prop(PropKey::Resizable))
    } else if w == "visible"@ {
        Some(Keyword::Prop(PropKey::Visible))
    } else if w == "hotspot"@ {
        Some(Keyword::Prop(PropKey::Hotspot))
    } else if w == "modal"@ {
        Some(Keyword::Prop(PropKey::Modal))
    } else if w == "non_modal"@ {
        Some(Keyword::Prop(PropKey::NonModal))
    } else if w == "noborder"@ {
        Some(Keyword::Prop(PropKey::Noborder))
    } else if w == "selected"@ {
        Some(Keyword::Prop(PropKey::Selected))
    } else if w == "xywh"@ {
        Some(Keyword::Prop(PropKey::Xywh))
    } else if w == "size_range"@ {
        Some(Keyword::Prop(PropKey::SizeRange))
    } else if w == "color"@ {
        Some(Keyword::Prop(PropKey::Color))
    } else if w == "selection_color"@ {
        Some(Keyword::Prop(PropKey::SelectionColor))
    } else if w == "labelcolor"@ {
        Some(Keyword::Prop(PropKey::Labelcolor))
    } else if w == "textcolor"@ {
        Some(Keyword::Prop(PropKey::Textcolor))
    } else if w == "type"@ {
        Some(Keyword::Prop(PropKey::Typ))
    } else if w == "labeltype"@ {
        Some(Keyword::Prop(PropKey::Labeltype))
    } else if w == "labelfont"@ {
        Some(Keyword::Prop(PropKey::Labelfont))
    } else if w == "textfont"@ {
        Some(Keyword::Prop(PropKey::Textfont))
    } else if w == "labelsize"@ {
        Some(Keyword::Prop(PropKey::Labelsize))
    } else if w == "textsize"@ {
        Some(Keyword::Prop(PropKey::Textsize))
    } else if w == "box"@ {
        Some(Keyword::Prop(PropKey::BoxType))
    } else if w == "down_box"@ {
        Some(Keyword::Prop(PropKey::DownBox))
    } else if w == "align"@ {
        Some(Keyword::Prop(PropKey::Align))
    } else if w == "when"@ {
        Some(Keyword::Prop(PropKey::When))
    } else if w == "shortcut"@ {
        Some(Keyword::Prop(PropKey::Shortcut))
    } else if w == "gap"@ {
        Some(Keyword::Prop(PropKey::Gap))
    } else if w == "minimum"@ {
        Some(Keyword::Prop(PropKey::Minimum))
    } else if w == "maximum"@ {
        Some(Keyword::Prop(PropKey::Maximum))
    } else if w == "step"@ {
        Some(Keyword::Prop(PropKey::Step))
    } else if w == "slider_size"@ {
        Some(Keyword::Prop(PropKey::SliderSize))
    } else if w == "size"@ {
        Some(Keyword::Prop(PropKey::Size))
    } else if w == "label"@ {
        Some(Keyword::Prop(PropKey::Label))
    } else if w == "xclass"@ {
        Some(Keyword::Prop(PropKey::Xclass))
    } else if w == "class"@ {
        Some(Keyword::Prop(PropKey::Class))
    } else if w == "tooltip"@ {
        Some(Keyword::Prop(PropKey::Tooltip))
    } else if w == "image"@ {
        Some(Keyword::Prop(PropKey::Image))
    } else if w == "deimage"@ {
        Some(Keyword::Prop(PropKey::Deimage))
    } else if w == "value"@ {
        Some(Keyword::Prop(PropKey::Value))
    } else if w == "set_size_tuples"@ {
        Some(Keyword::Prop(PropKey::SizeTuple))
    } else if w == "fixed_size_tuples"@ {
        Some(Keyword::Prop(PropKey::SizeTuple))
    } else if w == "margins"@ {
        Some(Keyword::Prop(PropKey::Margins))
    } else if w == "code0"@ {
        Some(Keyword::Prop(PropKey::Code0))
    } else if w == "code1"@ {
        Some(Keyword::Prop(PropKey::Code1))
    } else if w == "code2"@ {
        Some(Keyword::Prop(PropKey::Code2))
    } else if w == "code3"@ {
        Some(Keyword::Prop(PropKey::Code3))
    } else if w == "extra_code"@ {
        Some(Keyword::Prop(PropKey::ExtraCode))
    } else if w == "callback"@ {
        Some(Keyword::Prop(PropKey::Callback))
    } else if w == "user_data"@ {
        Some(Keyword::Prop(PropKey::UserData))
    } else if w == "user_data_type"@ {
        Some(Keyword::Prop(PropKey::UserDataType))
    } else if w == "comment"@ {
        Some(Keyword::Prop(PropKey::Comment))
    } else {
        None
    }
}

/// The keywords of a function's property block.
#[verifier::opaque]
pub open spec fn function_keyword(w: Seq<char>) -> Option<Keyword> {
    if w == "open"@ {
        Some(Keyword::Prop(PropKey::Open))
    } else if w == "C"@ {
        Some(Keyword::Prop(PropKey::CLinkage))
    } else if w == "protected"@ {
        Some(Keyword::Vis(Visibility::PROTECTED))
    } else if w == "private"@ {
        Some(Keyword::Vis(Visibility::PRIVATE))
    } else if w == "comment"@ {
        Some(Keyword::Prop(PropKey::Comment))
    } else if w == "return_type"@ {
        Some(Keyword::Prop(PropKey::ReturnType))
    } else {
        None
    }
}

/// The keywords of a class's property block.
#[verifier::opaque]
pub open spec fn class_keyword(w: Seq<char>) -> Option<Keyword> {
    if w == "open"@ {
        Some(Keyword::Prop(PropKey::Open))
    } else if w == "protected"@ {
        Some(Keyword::Vis(Visibility::PROTECTED))
    } else if w == "private"@ {
        Some(Keyword::Vis(Visibility::PRIVATE))
    } else if w == "comment"@ {
        Some(Keyword::Prop(PropKey::Comment))
    } else {
        None
    }
}

/// The keywords of a comment's property block.
#[verifier::opaque]
pub open spec fn comment_keyword(w: Seq<char>) -> Option<Keyword> {
    if w == "in_source"@ {
        Some(Keyword::Prop(PropKey::InSource))
    } else if w == "in_header"@ {
        Some(Keyword::Prop(PropKey::InHeader))
    } else {
        None
    }
}

/// The keywords of a decl's property block.
#[verifier::opaque]
pub open spec fn decl_keyword(w: Seq<char>) -> Option<Keyword> {
    if w == "private"@ {
        Some(Keyword::Vis(Visibility::PRIVATE))
    } else if w == "public"@ {
        Some(Keyword::Vis(Visibility::PUBLIC))
    } else if w == "global"@ {
        Some(Keyword::Prop(PropKey::Global))
    } else if w == "local"@ {
        Some(Keyword::Prop(PropKey::Local))
    } else {
        None
    }
}

/// The keywords of the property blocks of a kind of record.
pub open spec fn keyword_of(rk: Record, w: Seq<char>) -> Option<Keyword> {
    match rk {
        Record::Widget => widget_keyword(w),
        Record::Function => function_keyword(w),
        Record::Class => class_keyword(w),
        Record::Comment => comment_keyword(w),
        Record::Decl => decl_keyword(w),
    }
}

/// The properties of a kind of record.
pub open spec fn record_key(rk: Record, k: PropKey) -> bool {
    match rk {
        Record::Widget => is_widget_key(k),
        Record::Function => is_function_key(k),
        Record::Class => is_class_key(k),
        Record::Comment => is_comment_key(k),
        Record::Decl => is_decl_key(k),
    }
}

/// The property that a keyword sets.
pub open spec fn keyword_key(kw: Keyword) -> PropKey {
    match kw {
        Keyword::Vis(_) => PropKey::Visibility,
        Keyword::Prop(k) => k,
    }
}

/// A keyword names a property of its record, and no property holds a
/// visibility but through a visibility keyword.
pub open spec fn keyword_fits(rk: Record, kw: Keyword) -> bool {
    match kw {
        Keyword::Vis(_) => record_key(rk, PropKey::Visibility),
        Keyword::Prop(k) => record_key(rk, k) && key_kind(k) != Kind::Vis,
    }
}

/// Every keyword of a record's table fits that record.
pub proof fn lemma_keyword_fits(rk: Record, w: Seq<char>)
    ensures
        keyword_of(rk, w) matches Some(kw) ==> keyword_fits(rk, kw),
{
    reveal(widget_keyword);
    reveal(function_keyword);
    reveal(class_keyword);
    reveal(comment_keyword);
    reveal(decl_keyword);
}

/// The properties that a sequence of assignments gives, applied in order
/// over `m`: a later one wins.
pub open spec fn apply_props(m: Map<PropKey, PropValue>, a: Seq<(PropKey, PropValue)>) -> Map<
    PropKey,
    PropValue,
>
    decreases a.len(),
{
    if a.len() == 0 {
        m
    } else {
        apply_props(m, a.drop_last()).insert(a.last().0, a.last().1)
    }
}

/// A word that begins a widget: one that starts with `Fl_`, or a menu item
/// or submenu.
pub open spec fn is_type_tag(t: TokenView) -> bool {
    &&& t.typ == TokenType::Word
    &&& {
        let b = encode_utf8(t.word);
        ||| (b.len() >= 3 && b[0] == 0x46 && b[1] == 0x6c && b[2] == 0x5f)
        ||| t.word == "MenuItem"@
        ||| t.word == "Submenu"@
    }
}

/// A token stands at `j`, and it is not the end of the input.
pub open spec fn present(t: Seq<TokenView>, j: int) -> bool {
    0 <= j < t.len() && t[j].typ != TokenType::Eof
}

/// The index of the `}` that closes a block, scanning from `j` with `depth`
/// blocks open.
pub open spec fn close_of(t: Seq<TokenView>, j: int, depth: nat) -> Option<int>
    decreases t.len() - j,
{
    if !present(t, j) {
        None
    } else if t[j].typ == TokenType::OpenBrace {
        close_of(t, j + 1, depth + 1)
    } else if t[j].typ == TokenType::CloseBrace {
        if depth <= 1 {
            Some(j)
        } else {
            close_of(t, j + 1, (depth - 1) as nat)
        }
    } else {
        close_of(t, j + 1, depth)
    }
}

/// The block that opens at `i`: the exact text between its braces, and the
/// index after its closing brace.
pub open spec fn block_at(t: Seq<TokenView>, s: Seq<u8>, i: int) -> Result<(Seq<char>, int), ParseError> {
    if !present(t, i) {
        Err(ParseError::PrematureEndOfInput)
    } else if t[i].typ != TokenType::OpenBrace {
        Err(ParseError::UnexpectedStructure { at: t[i].start as usize })
    } else {
        match close_of(t, i + 1, 1) {
            Some(c) => Ok((decode_utf8(s.subrange(t[i].end, t[c].start)), c + 1)),
            None => Err(ParseError::UnterminatedBlock { open: t[i].start as usize }),
        }
    }
}

/// The index after the block that opens at `i`.
pub open spec fn skip_at(t: Seq<TokenView>, i: int) -> Result<int, ParseError> {
    match close_of(t, i + 1, 1) {
        Some(c) => Ok(c + 1),
        None => Err(ParseError::UnterminatedBlock { open: t[i].start as usize }),
    }
}

/// An error met inside the block that opens at offset `open_at`: where the
/// text ended, it is that block that is left open.
pub open spec fn inside_block(x: ParseError, open_at: int) -> ParseError {
    if x is PrematureEndOfInput {
        ParseError::UnterminatedBlock { open: open_at as usize }
    } else {
        x
    }
}

/// A text value at `i`: a word, or the text of a block.
pub open spec fn text_at(t: Seq<TokenView>, s: Seq<u8>, i: int) -> Result<(Seq<char>, int), ParseError> {
    if present(t, i) && t[i].typ == TokenType::Word {
        Ok((t[i].word, i + 1))
    } else {
        block_at(t, s, i)
    }
}

/// The error for a numeral expected at `j` after the keyword at offset `kw`.
pub open spec fn numeral_error(t: Seq<TokenView>, j: int, kw: int) -> ParseError {
    if !present(t, j) {
        ParseError::PrematureEndOfInput
    } else {
        ParseError::InvalidNumericLiteral {
            keyword: kw as usize,
            start: t[j].start as usize,
            end: t[j].end as usize,
        }
    }
}

/// A `u32` numeral at `j`, for the keyword at offset `kw`.
pub open spec fn unsigned_at(t: Seq<TokenView>, j: int, kw: int) -> Result<(u32, int), ParseError> {
    if present(t, j) && t[j].typ == TokenType::Word && u32_numeral(encode_utf8(t[j].word)) is Some {
        Ok((u32_numeral(encode_utf8(t[j].word))->0, j + 1))
    } else {
        Err(numeral_error(t, j, kw))
    }
}

/// An `i32` numeral at `j`, for the keyword at offset `kw`.
pub open spec fn signed_at(t: Seq<TokenView>, j: int, kw: int) -> Result<(i32, int), ParseError> {
    if present(t, j) && t[j].typ == TokenType::Word && i32_numeral(encode_utf8(t[j].word)) is Some {
        Ok((i32_numeral(encode_utf8(t[j].word))->0, j + 1))
    } else {
        Err(numeral_error(t, j, kw))
    }
}

/// A decimal numeral at `j`, for the keyword at offset `kw`.
pub open spec fn decimal_at(t: Seq<TokenView>, j: int, kw: int) -> Result<(Decimal, int), ParseError> {
    if present(t, j) && t[j].typ == TokenType::Word && decimal_numeral(encode_utf8(t[j].word)) is Some {
        Ok((decimal_numeral(encode_utf8(t[j].word))->0, j + 1))
    } else {
        Err(numeral_error(t, j, kw))
    }
}

/// The property that keyword `kw` (at offset `kw_at`) sets, its value, and
/// the index after the value, which starts at `j`.
#[verifier::opaque]
pub open spec fn value_at(t: Seq<TokenView>, s: Seq<u8>, j: int, kw: Keyword, kw_at: int) -> Result<
    (PropKey, PropValue, int),
    ParseError,
> {
    match kw {
        Keyword::Vis(v) => Ok((PropKey::Visibility, PropValue::Vis(v), j)),
        Keyword::Prop(k) => match key_kind(k) {
            Kind::Flag => Ok((k, PropValue::Flag(true), j)),
            Kind::Unsigned => match unsigned_at(t, j, kw_at) {
                Ok((n, e)) => Ok((k, PropValue::Unsigned(n), e)),
                Err(x) => Err(x),
            },
            Kind::Signed => match signed_at(t, j, kw_at) {
                Ok((n, e)) => Ok((k, PropValue::Signed(n), e)),
                Err(x) => Err(x),
            },
            Kind::Real => match decimal_at(t, j, kw_at) {
                Ok((d, e)) => Ok((k, PropValue::Real(d), e)),
                Err(x) => Err(x),
            },
            Kind::Text => match text_at(t, s, j) {
                Ok((x, e)) => Ok((k, PropValue::Text(x), e)),
                Err(x) => Err(x),
            },
            Kind::Vis => Err(ParseError::UnexpectedStructure { at: kw_at as usize }),
        },
    }
}

/// The assignments of a property block from `j` on, after those in `acc`,
/// and the index after the block's `}`. Unknown keywords, and blocks that no
/// keyword takes, are passed over.
pub open spec fn prop_items(
    t: Seq<TokenView>,
    s: Seq<u8>,
    rk: Record,
    j: int,
    open_at: int,
    acc: Seq<(PropKey, PropValue)>,
) -> Result<(Seq<(PropKey, PropValue)>, int), ParseError>
    decreases t.len() - j,
{
    if !present(t, j) {
        Err(ParseError::UnterminatedBlock { open: open_at as usize })
    } else if t[j].typ == TokenType::CloseBrace {
        Ok((acc, j + 1))
    } else if t[j].typ == TokenType::OpenBrace {
        match skip_at(t, j) {
            Ok(e) => if j < e <= t.len() {
                prop_items(t, s, rk, e, open_at, acc)
            } else {
                Err(ParseError::PrematureEndOfInput)
            },
            Err(x) => Err(x),
        }
    } else {
        match keyword_of(rk, t[j].word) {
            None => prop_items(t, s, rk, j + 1, open_at, acc),
            Some(kw) => match value_at(t, s, j + 1, kw, t[j].start) {
                Ok((k, v, e)) => if j < e <= t.len() {
                    prop_items(t, s, rk, e, open_at, acc.push((k, v)))
                } else {
                    Err(ParseError::PrematureEndOfInput)
                },
                Err(x) => Err(inside_block(x, open_at)),
            },
        }
    }
}

/// The assignments of the property block that opens at `i`, and the index
/// after it.
pub open spec fn props_at(t: Seq<TokenView>, s: Seq<u8>, rk: Record, i: int) -> Result<
    (Seq<(PropKey, PropValue)>, int),
    ParseError,
> {
    if !present(t, i) {
        Err(ParseError::PrematureEndOfInput)
    } else if t[i].typ != TokenType::OpenBrace {
        Err(ParseError::UnexpectedStructure { at: t[i].start as usize })
    } else {
        prop_items(t, s, rk, i + 1, t[i].start, seq![])
    }
}

/// The block that opens at `k` holds the children of a widget: it is empty,
/// or it starts with a widget.
pub open spec fn starts_children(t: Seq<TokenView>, k: int) -> bool {
    0 <= k && k + 1 < t.len() && (t[k + 1].typ == TokenType::CloseBrace || is_type_tag(t[k + 1]))
}

/// The widget whose type stands at `i`: its name, a property block, and
/// blocks after it. A block that is empty or starts with a widget holds the
/// children and ends the widget; any other block holds more properties.
pub open spec fn widget_at(t: Seq<TokenView>, s: Seq<u8>, i: int) -> Result<(WidgetModel, int), ParseError>
    decreases t.len() - i, 0nat,
{
    if !present(t, i) {
        Err(ParseError::PrematureEndOfInput)
    } else {
        match text_at(t, s, i + 1) {
            Err(x) => Err(x),
            Ok((name, j)) => match props_at(t, s, Record::Widget, j) {
                Err(x) => Err(x),
                Ok((a, k)) => if i < k <= t.len() {
                    widget_rest(
                        t,
                        s,
                        k,
                        WidgetModel {
                            typ: t[i].word,
                            name,
                            props: apply_props(Map::empty(), a),
                            children: seq![],
                        },
                    )
                } else {
                    Err(ParseError::PrematureEndOfInput)
                },
            },
        }
    }
}

/// The blocks of widget `m` from `k` on.
pub open spec fn widget_rest(t: Seq<TokenView>, s: Seq<u8>, k: int, m: WidgetModel) -> Result<
    (WidgetModel, int),
    ParseError,
>
    decreases t.len() - k, 1nat,
{
    if !(present(t, k) && t[k].typ == TokenType::OpenBrace) {
        Ok((m, k))
    } else if starts_children(t, k) {
        children_at(t, s, k + 1, t[k].start, m)
    } else {
        match props_at(t, s, Record::Widget, k) {
            Err(x) => Err(x),
            Ok((a, e)) => if k < e <= t.len() {
                widget_rest(
                    t,
                    s,
                    e,
                    WidgetModel {
                        typ: m.typ,
                        name: m.name,
                        props: apply_props(m.props, a),
                        children: m.children,
                    },
                )
            } else {
                Err(ParseError::PrematureEndOfInput)
            },
        }
    }
}

/// The children of widget `m` from `j` on, and the index after the block's
/// `}`. Tokens that start no widget, and blocks among the children, are
/// passed over.
pub open spec fn children_at(t: Seq<TokenView>, s: Seq<u8>, j: int, open_at: int, m: WidgetModel) -> Result<
    (WidgetModel, int),
    ParseError,
>
    decreases t.len() - j, 1nat,
{
    if !present(t, j) {
        Err(ParseError::UnterminatedBlock { open: open_at as usize })
    } else if t[j].typ == TokenType::CloseBrace {
        Ok((m, j + 1))
    } else if t[j].typ == TokenType::OpenBrace {
        match skip_at(t, j) {
            Ok(e) => if j < e <= t.len() {
                children_at(t, s, e, open_at, m)
            } else {
                Err(ParseError::PrematureEndOfInput)
            },
            Err(x) => Err(x),
        }
    } else if is_type_tag(t[j]) {
        match widget_at(t, s, j) {
            Ok((c, e)) => if j < e <= t.len() {
                children_at(
                    t,
                    s,
                    e,
                    open_at,
                    WidgetModel {
                        typ: m.typ,
                        name: m.name,
                        props: m.props,
                        children: m.children.push(c),
                    },
                )
            } else {
                Err(ParseError::PrematureEndOfInput)
            },
            Err(x) => Err(inside_block(x, open_at)),
        }
    } else {
        children_at(t, s, j + 1, open_at, m)
    }
}

/// The function whose keyword stands at `i`: its signature as a block, a
/// property block, and optionally a body.
pub open spec fn function_at(t: Seq<TokenView>, s: Seq<u8>, i: int) -> Result<(FunctionModel, int), ParseError> {
    if !present(t, i) {
        Err(ParseError::PrematureEndOfInput)
    } else {
        match block_at(t, s, i + 1) {
            Err(x) => Err(x),
            Ok((name, j)) => match props_at(t, s, Record::Function, j) {
                Err(x) => Err(x),
                Ok((a, k)) => {
                    let f = FunctionModel {
                        name,
                        props: apply_props(Map::empty(), a),
                        code: None,
                        widgets: seq![],
                    };
                    if present(t, k) && t[k].typ == TokenType::OpenBrace {
                        body_at(t, s, k + 1, t[k].start, f)
                    } else {
                        Ok((f, k))
                    }
                },
            },
        }
    }
}

/// The code of a `code` item whose text starts at `i`, and the index after
/// it and after the block that follows it, if one does.
pub open spec fn code_at(t: Seq<TokenView>, s: Seq<u8>, i: int) -> Result<(Seq<char>, int), ParseError> {
    match text_at(t, s, i) {
        Ok((c, e)) => if present(t, e) && t[e].typ == TokenType::OpenBrace {
            match skip_at(t, e) {
                Ok(e2) => Ok((c, e2)),
                Err(x) => Err(x),
            }
        } else {
            Ok((c, e))
        },
        Err(x) => Err(x),
    }
}

/// The body of function `f` from `j` on: widgets and code, and the index
/// after its `}`.
pub open spec fn body_at(t: Seq<TokenView>, s: Seq<u8>, j: int, open_at: int, f: FunctionModel) -> Result<
    (FunctionModel, int),
    ParseError,
>
    decreases t.len() - j,
{
    if !present(t, j) {
        Err(ParseError::UnterminatedBlock { open: open_at as usize })
    } else if t[j].typ == TokenType::CloseBrace {
        Ok((f, j + 1))
    } else if t[j].typ == TokenType::OpenBrace {
        match skip_at(t, j) {
            Ok(e) => if j < e <= t.len() {
                body_at(t, s, e, open_at, f)
            } else {
                Err(ParseError::PrematureEndOfInput)
            },
            Err(x) => Err(x),
        }
    } else if t[j].typ == TokenType::Word && t[j].word == "code"@ {
        match code_at(t, s, j + 1) {
            Ok((c, e)) => if j < e <= t.len() {
                body_at(
                    t,
                    s,
                    e,
                    open_at,
                    FunctionModel { name: f.name, props: f.props, code: Some(c), widgets: f.widgets },
                )
            } else {
                Err(ParseError::PrematureEndOfInput)
            },
            Err(x) => Err(inside_block(x, open_at)),
        }
    } else if is_type_tag(t[j]) {
        match widget_at(t, s, j) {
            Ok((w, e)) => if j < e <= t.len() {
                body_at(
                    t,
                    s,
                    e,
                    open_at,
                    FunctionModel {
                        name: f.name,
                        props: f.props,
                        code: f.code,
                        widgets: f.widgets.push(w),
                    },
                )
            } else {
                Err(ParseError::PrematureEndOfInput)
            },
            Err(x) => Err(inside_block(x, open_at)),
        }
    } else {
        body_at(t, s, j + 1, open_at, f)
    }
}

/// The class whose keyword stands at `i`: its name, a property block, and
/// optionally a body of functions and comments.
pub open spec fn class_at(t: Seq<TokenView>, s: Seq<u8>, i: int) -> Result<(ClassModel, int), ParseError> {
    if !present(t, i) {
        Err(ParseError::PrematureEndOfInput)
    } else {
        match text_at(t, s, i + 1) {
            Err(x) => Err(x),
            Ok((name, j)) => match props_at(t, s, Record::Class, j) {
                Err(x) => Err(x),
                Ok((a, k)) => {
                    let c = ClassModel { name, props: apply_props(Map::empty(), a), functions: seq![] };
                    if present(t, k) && t[k].typ == TokenType::OpenBrace {
                        class_body_at(t, s, k + 1, t[k].start, c)
                    } else {
                        Ok((c, k))
                    }
                },
            },
        }
    }
}

/// The body of class `c` from `j` on, and the index after its `}`.
pub open spec fn class_body_at(t: Seq<TokenView>, s: Seq<u8>, j: int, open_at: int, c: ClassModel) -> Result<
    (ClassModel, int),
    ParseError,
>
    decreases t.len() - j,
{
    if !present(t, j) {
        Err(ParseError::UnterminatedBlock { open: open_at as usize })
    } else if t[j].typ == TokenType::CloseBrace {
        Ok((c, j + 1))
    } else if t[j].typ == TokenType::OpenBrace {
        match skip_at(t, j) {
            Ok(e) => if j < e <= t.len() {
                class_body_at(t, s, e, open_at, c)
            } else {
                Err(ParseError::PrematureEndOfInput)
            },
            Err(x) => Err(x),
        }
    } else if t[j].typ == TokenType::Word && t[j].word == "Function"@ {
        match function_at(t, s, j) {
            Ok((f, e)) => if j < e <= t.len() {
                class_body_at(
                    t,
                    s,
                    e,
                    open_at,
                    ClassModel { name: c.name, props: c.props, functions: c.functions.push(f) },
                )
            } else {
                Err(ParseError::PrematureEndOfInput)
            },
            Err(x) => Err(inside_block(x, open_at)),
        }
    } else if t[j].typ == TokenType::Word && t[j].word == "comment"@ {
        match text_at(t, s, j + 1) {
            Ok((x, e)) => if j < e <= t.len() {
                class_body_at(
                    t,
                    s,
                    e,
                    open_at,
                    ClassModel {
                        name: c.name,
                        props: c.props.insert(PropKey::Comment, PropValue::Text(x)),
                        functions: c.functions,
                    },
                )
            } else {
                Err(ParseError::PrematureEndOfInput)
            },
            Err(x) => Err(inside_block(x, open_at)),
        }
    } else {
        class_body_at(t, s, j + 1, open_at, c)
    }
}

/// A comment or a declaration whose keyword stands at `i`: its text, then
/// optionally a property block applied over `base`.
pub open spec fn note_at(t: Seq<TokenView>, s: Seq<u8>, i: int, rk: Record, base: Map<PropKey, PropValue>) -> Result<
    (NoteModel, int),
    ParseError,
> {
    if !present(t, i) {
        Err(ParseError::PrematureEndOfInput)
    } else {
        match text_at(t, s, i + 1) {
            Err(x) => Err(x),
            Ok((x, j)) => if present(t, j) && t[j].typ == TokenType::OpenBrace {
                match props_at(t, s, rk, j) {
                    Ok((a, k)) => Ok((NoteModel { text: x, props: apply_props(base, a) }, k)),
                    Err(e) => Err(e),
                }
            } else {
                Ok((NoteModel { text: x, props: base }, j))
            },
        }
    }
}

/// A project with nothing in it.
pub open spec fn empty_ast() -> AstModel {
    AstModel {
        version: None,
        i18n_type: None,
        header_name: None,
        code_name: None,
        classes: seq![],
        widget_classes: seq![],
        functions: seq![],
        comments: seq![],
        decls: seq![],
    }
}

/// The top-level items from `j` on, added to `a`. Unknown words, and blocks
/// that no keyword takes, are passed over; a stray `}` is an error.
pub open spec fn items_at(t: Seq<TokenView>, s: Seq<u8>, j: int, a: AstModel) -> Result<AstModel, ParseError>
    decreases t.len() - j,
{
    if !present(t, j) {
        Ok(a)
    } else if t[j].typ == TokenType::CloseBrace {
        Err(ParseError::UnexpectedStructure { at: t[j].start as usize })
    } else if t[j].typ == TokenType::OpenBrace {
        match skip_at(t, j) {
            Ok(e) => if j < e <= t.len() {
                items_at(t, s, e, a)
            } else {
                Err(ParseError::PrematureEndOfInput)
            },
            Err(x) => Err(x),
        }
    } else if t[j].word == "version"@ {
        match decimal_at(t, j + 1, t[j].start) {
            Ok((d, e)) => if j < e <= t.len() {
                items_at(t, s, e, AstModel { version: Some(d), ..a })
            } else {
                Err(ParseError::PrematureEndOfInput)
            },
            Err(x) => Err(x),
        }
    } else if t[j].word == "i18n_type"@ {
        let e = if present(t, j + 1) && t[j + 1].typ == TokenType::Word {
            j + 2
        } else {
            j + 1
        };
        items_at(t, s, e, AstModel { i18n_type: Some(true), ..a })
    } else if t[j].word == "header_name"@ {
        match text_at(t, s, j + 1) {
            Ok((x, e)) => if j < e <= t.len() {
                items_at(t, s, e, AstModel { header_name: Some(x), ..a })
            } else {
                Err(ParseError::PrematureEndOfInput)
            },
            Err(x) => Err(x),
        }
    } else if t[j].word == "code_name"@ {
        match text_at(t, s, j + 1) {
            Ok((x, e)) => if j < e <= t.len() {
                items_at(t, s, e, AstModel { code_name: Some(x), ..a })
            } else {
                Err(ParseError::PrematureEndOfInput)
            },
            Err(x) => Err(x),
        }
    } else if t[j].word == "class"@ {
        match class_at(t, s, j) {
            Ok((c, e)) => if j < e <= t.len() {
                items_at(t, s, e, AstModel { classes: a.classes.push(c), ..a })
            } else {
                Err(ParseError::PrematureEndOfInput)
            },
            Err(x) => Err(x),
        }
    } else if t[j].word == "Function"@ {
        match function_at(t, s, j) {
            Ok((f, e)) => if j < e <= t.len() {
                items_at(t, s, e, AstModel { functions: a.functions.push(f), ..a })
            } else {
                Err(ParseError::PrematureEndOfInput)
            },
            Err(x) => Err(x),
        }
    } else if t[j].word == "comment"@ {
        match note_at(t, s, j, Record::Comment, Map::empty()) {
            Ok((c, e)) => if j < e <= t.len() {
                items_at(t, s, e, AstModel { comments: a.comments.push(c), ..a })
            } else {
                Err(ParseError::PrematureEndOfInput)
            },
            Err(x) => Err(x),
        }
    } else if t[j].word == "decl"@ {
        match note_at(t, s, j, Record::Decl, Map::empty()) {
            Ok((d, e)) => if j < e <= t.len() {
                items_at(t, s, e, AstModel { decls: a.decls.push(d), ..a })
            } else {
                Err(ParseError::PrematureEndOfInput)
            },
            Err(x) => Err(x),
        }
    } else if t[j].word == "widget_class"@ {
        match widget_at(t, s, j) {
            Ok((w, e)) => if j < e <= t.len() {
                items_at(t, s, e, AstModel { widget_classes: a.widget_classes.push(w), ..a })
            } else {
                Err(ParseError::PrematureEndOfInput)
            },
            Err(x) => Err(x),
        }
    } else {
        items_at(t, s, j + 1, a)
    }
}

/// The project that text `s` describes.
pub open spec fn parse_model(s: Seq<u8>) -> Result<AstModel, ParseError> {
    parse_tokens(tokenize(s), s)
}

/// The project that the tokens `t` of text `s` describe.
pub open spec fn parse_tokens(t: Seq<TokenView>, s: Seq<u8>) -> Result<AstModel, ParseError> {
    items_at(t, s, 0, empty_ast())
}

} // verus!
