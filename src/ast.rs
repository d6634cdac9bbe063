use crate::numeral::Decimal;
use vstd::prelude::*;

verus! {

/// Who may use a class member, a function or a declaration.
#[allow(non_camel_case_types)]
#[derive(Debug, PartialEq, Eq, Copy, Clone, Structural)]
pub enum Visibility {
    PUBLIC,
    PRIVATE,
    PROTECTED,
}

impl Default for Visibility {
    fn default() -> (r: Self)
        ensures
            r == Visibility::PUBLIC,
    {
        Visibility::PUBLIC
    }
}

/// A property of a widget, a function, a class, a comment or a declaration:
/// one field of their property records.
#[derive(Debug, PartialEq, Eq, Copy, Clone, Structural)]
pub enum PropKey {
    Open,
    Xywh,
    Label,
    Typ,
    Hide,
    Deactivate,
    Visible,
    Modal,
    NonModal,
    Noborder,
    Xclass,
    SizeRange,
    Resizable,
    Hotspot,
    Divider,
    Selected,
    Color,
    SelectionColor,
    Tooltip,
    Image,
    Deimage,
    BoxType,
    DownBox,
    Value,
    Labeltype,
    Labelfont,
    Labelsize,
    Labelcolor,
    Align,
    When,
    Minimum,
    Maximum,
    Step,
    SliderSize,
    Size,
    Textfont,
    Textsize,
    Textcolor,
    Class,
    Shortcut,
    Code0,
    Code1,
    Code2,
    Code3,
    ExtraCode,
    SizeTuple,
    Margins,
    Gap,
    UserData,
    UserDataType,
    Callback,
    Comment,
    Visibility,
    CLinkage,
    ReturnType,
    InSource,
    InHeader,
    Global,
    Local,
}

/// The kind of value a property holds.
#[derive(Debug, PartialEq, Eq, Copy, Clone, Structural)]
pub enum Kind {
    Flag,
    Vis,
    Unsigned,
    Signed,
    Real,
    Text,
}

/// What a keyword in a property block stands for: a property whose value
/// follows it (or, for a flag, is its presence), or a visibility.
#[derive(Debug, PartialEq, Eq, Copy, Clone, Structural)]
pub enum Keyword {
    Prop(PropKey),
    Vis(Visibility),
}

/// The value of a property.
#[derive(Debug)]
pub enum Value {
    Flag(bool),
    Vis(Visibility),
    Unsigned(u32),
    Signed(i32),
    Real(Decimal),
    Text(String),
}

/// The value of a property, as a mathematical value.
pub ghost enum PropValue {
    Flag(bool),
    Vis(Visibility),
    Unsigned(u32),
    Signed(i32),
    Real(Decimal),
    Text(Seq<char>),
}

impl View for Value {
    type V = PropValue;

    open spec fn view(&self) -> PropValue {
        match self {
            Value::Flag(b) => PropValue::Flag(*b),
            Value::Vis(v) => PropValue::Vis(*v),
            Value::Unsigned(n) => PropValue::Unsigned(*n),
            Value::Signed(n) => PropValue::Signed(*n),
            Value::Real(d) => PropValue::Real(*d),
            Value::Text(t) => PropValue::Text(t@),
        }
    }
}

/// The kind of a value.
pub open spec fn kind_of(v: PropValue) -> Kind {
    match v {
        PropValue::Flag(_) => Kind::Flag,
        PropValue::Vis(_) => Kind::Vis,
        PropValue::Unsigned(_) => Kind::Unsigned,
        PropValue::Signed(_) => Kind::Signed,
        PropValue::Real(_) => Kind::Real,
        PropValue::Text(_) => Kind::Text,
    }
}

/// The kind of value that each property holds.
pub open spec fn key_kind(k: PropKey) -> Kind {
    match k {
        PropKey::Open | PropKey::Hide | PropKey::Deactivate | PropKey::Visible | PropKey::Modal
        | PropKey::NonModal | PropKey::Noborder | PropKey::Resizable | PropKey::Hotspot
        | PropKey::Divider | PropKey::Selected | PropKey::CLinkage | PropKey::InSource
        | PropKey::InHeader | PropKey::Global | PropKey::Local => Kind::Flag,
        PropKey::Visibility => Kind::Vis,
        PropKey::Color | PropKey::SelectionColor | PropKey::Labelcolor
        | PropKey::Textcolor => Kind::Unsigned,
        PropKey::Labelfont | PropKey::Labelsize | PropKey::Align | PropKey::When
        | PropKey::Textfont | PropKey::Textsize | PropKey::Gap => Kind::Signed,
        PropKey::Minimum | PropKey::Maximum | PropKey::Step | PropKey::SliderSize
        | PropKey::Size => Kind::Real,
        _ => Kind::Text,
    }
}

/// The value of a property in a map of properties, if it is there.
pub open spec fn map_value(m: Map<PropKey, PropValue>, k: PropKey) -> Option<PropValue> {
    if m.contains_key(k) {
        Some(m[k])
    } else {
        None
    }
}

/// A flag field as a property value.
pub open spec fn flag_value(o: Option<bool>) -> Option<PropValue> {
    match o {
        Some(b) => Some(PropValue::Flag(b)),
        None => None,
    }
}

/// A visibility field as a property value.
pub open spec fn vis_value(o: Option<Visibility>) -> Option<PropValue> {
    match o {
        Some(v) => Some(PropValue::Vis(v)),
        None => None,
    }
}

/// An unsigned field as a property value.
pub open spec fn unsigned_value(o: Option<u32>) -> Option<PropValue> {
    match o {
        Some(n) => Some(PropValue::Unsigned(n)),
        None => None,
    }
}

/// A signed field as a property value.
pub open spec fn signed_value(o: Option<i32>) -> Option<PropValue> {
    match o {
        Some(n) => Some(PropValue::Signed(n)),
        None => None,
    }
}

/// A decimal field as a property value.
pub open spec fn real_value(o: Option<Decimal>) -> Option<PropValue> {
    match o {
        Some(d) => Some(PropValue::Real(d)),
        None => None,
    }
}

/// A text field as a property value.
pub open spec fn text_value(o: Option<String>) -> Option<PropValue> {
    match o {
        Some(t) => Some(PropValue::Text(t@)),
        None => None,
    }
}

/// An optional text as an optional character sequence.
pub open spec fn opt_text(o: Option<String>) -> Option<Seq<char>> {
    match o {
        Some(t) => Some(t@),
        None => None,
    }
}

/// The properties a widget may have. Each one is absent until the widget's
/// property blocks name it.
#[derive(Debug)]
pub struct WidgetProps {
    pub open: Option<bool>,
    pub xywh: Option<String>,
    pub label: Option<String>,
    pub typ: Option<String>,
    pub hide: Option<bool>,
    pub deactivate: Option<bool>,
    pub visible: Option<bool>,
    pub modal: Option<bool>,
    pub non_modal: Option<bool>,
    pub noborder: Option<bool>,
    pub xclass: Option<String>,
    pub size_range: Option<String>,
    pub resizable: Option<bool>,
    pub hotspot: Option<bool>,
    pub divider: Option<bool>,
    pub selected: Option<bool>,
    pub color: Option<u32>,
    pub selection_color: Option<u32>,
    pub tooltip: Option<String>,
    pub image: Option<String>,
    pub deimage: Option<String>,
    pub box_type: Option<String>,
    pub down_box: Option<String>,
    pub value: Option<String>,
    pub labeltype: Option<String>,
    pub labelfont: Option<i32>,
    pub labelsize: Option<i32>,
    pub labelcolor: Option<u32>,
    pub align: Option<i32>,
    pub when: Option<i32>,
    pub minimum: Option<Decimal>,
    pub maximum: Option<Decimal>,
    pub step: Option<Decimal>,
    pub slider_size: Option<Decimal>,
    pub size: Option<Decimal>,
    pub textfont: Option<i32>,
    pub textsize: Option<i32>,
    pub textcolor: Option<u32>,
    pub class: Option<String>,
    pub shortcut: Option<String>,
    pub code0: Option<String>,
    pub code1: Option<String>,
    pub code2: Option<String>,
    pub code3: Option<String>,
    pub extra_code: Option<String>,
    pub size_tuple: Option<String>,
    pub margins: Option<String>,
    pub gap: Option<i32>,
    pub user_data: Option<String>,
    pub user_data_type: Option<String>,
    pub callback: Option<String>,
    pub comment: Option<String>,
}

/// The properties of widgets.
pub open spec fn is_widget_key(k: PropKey) -> bool {
    !(k is Visibility || k is CLinkage || k is ReturnType || k is InSource || k is InHeader
        || k is Global || k is Local)
}

impl WidgetProps {
    /// The value of property `k`.
    pub open spec fn get(&self, k: PropKey) -> Option<PropValue> {
        match k {
            PropKey::Open => flag_value(self.open),
            PropKey::Xywh => text_value(self.xywh),
            PropKey::Label => text_value(self.label),
            PropKey::Typ => text_value(self.typ),
            PropKey::Hide => flag_value(self.hide),
            PropKey::Deactivate => flag_value(self.deactivate),
            PropKey::Visible => flag_value(self.visible),
            PropKey::Modal => flag_value(self.modal),
            PropKey::NonModal => flag_value(self.non_modal),
            PropKey::Noborder => flag_value(self.noborder),
            PropKey::Xclass => text_value(self.xclass),
            PropKey::SizeRange => text_value(self.size_range),
            PropKey::Resizable => flag_value(self.resizable),
            PropKey::Hotspot => flag_value(self.hotspot),
            PropKey::Divider => flag_value(self.divider),
            PropKey::Selected => flag_value(self.selected),
            PropKey::Color => unsigned_value(self.color),
            PropKey::SelectionColor => unsigned_value(self.selection_color),
            PropKey::Tooltip => text_value(self.tooltip),
            PropKey::Image => text_value(self.image),
            PropKey::Deimage => text_value(self.deimage),
            PropKey::BoxType => text_value(self.box_type),
            PropKey::DownBox => text_value(self.down_box),
            PropKey::Value => text_value(self.value),
            PropKey::Labeltype => text_value(self.labeltype),
            PropKey::Labelfont => signed_value(self.labelfont),
            PropKey::Labelsize => signed_value(self.labelsize),
            PropKey::Labelcolor => unsigned_value(self.labelcolor),
            PropKey::Align => signed_value(self.align),
            PropKey::When => signed_value(self.when),
            PropKey::Minimum => real_value(self.minimum),
            PropKey::Maximum => real_value(self.maximum),
            PropKey::Step => real_value(self.step),
            PropKey::SliderSize => real_value(self.slider_size),
            PropKey::Size => real_value(self.size),
            PropKey::Textfont => signed_value(self.textfont),
            PropKey::Textsize => signed_value(self.textsize),
            PropKey::Textcolor => unsigned_value(self.textcolor),
            PropKey::Class => text_value(self.class),
            PropKey::Shortcut => text_value(self.shortcut),
            PropKey::Code0 => text_value(self.code0),
            PropKey::Code1 => text_value(self.code1),
            PropKey::Code2 => text_value(self.code2),
            PropKey::Code3 => text_value(self.code3),
            PropKey::ExtraCode => text_value(self.extra_code),
            PropKey::SizeTuple => text_value(self.size_tuple),
            PropKey::Margins => text_value(self.margins),
            PropKey::Gap => signed_value(self.gap),
            PropKey::UserData => text_value(self.user_data),
            PropKey::UserDataType => text_value(self.user_data_type),
            PropKey::Callback => text_value(self.callback),
            PropKey::Comment => text_value(self.comment),
            _ => None,
        }
    }

    /// The properties are those of the map `m`.
    pub open spec fn holds(&self, m: Map<PropKey, PropValue>) -> bool {
        forall|k: PropKey| #[trigger] self.get(k) == map_value(m, k)
    }

    /// Gives property `key` the value `v`, and leaves the others.
    pub fn set(&mut self, key: PropKey, v: Value)
        requires
            is_widget_key(key),
            kind_of(v@) == key_kind(key),
        ensures
            forall|k: PropKey|
                #[trigger] final(self).get(k) == if k == key {
                    Some(v@)
                } else {
                    old(self).get(k)
                },
    {
        match key {
            PropKey::Open => {
                if let Value::Flag(b) = v {
                    self.open = Some(b);
                }
            },
            PropKey::Xywh => {
                if let Value::Text(t) = v {
                    self.xywh = Some(t);
                }
            },
            PropKey::Label => {
                if let Value::Text(t) = v {
                    self.label = Some(t);
                }
            },
            PropKey::Typ => {
                if let Value::Text(t) = v {
                    self.typ = Some(t);
                }
            },
            PropKey::Hide => {
                if let Value::Flag(b) = v {
                    self.hide = Some(b);
                }
            },
            PropKey::Deactivate => {
                if let Value::Flag(b) = v {
                    self.deactivate = Some(b);
                }
            },
            PropKey::Visible => {
                if let Value::Flag(b) = v {
                    self.visible = Some(b);
                }
            },
            PropKey::Modal => {
                if let Value::Flag(b) = v {
                    self.modal = Some(b);
                }
            },
            PropKey::NonModal => {
                if let Value::Flag(b) = v {
                    self.non_modal = Some(b);
                }
            },
            PropKey::Noborder => {
                if let Value::Flag(b) = v {
                    self.noborder = Some(b);
                }
            },
            PropKey::Xclass => {
                if let Value::Text(t) = v {
                    self.xclass = Some(t);
                }
            },
            PropKey::SizeRange => {
                if let Value::Text(t) = v {
                    self.size_range = Some(t);
                }
            },
            PropKey::Resizable => {
                if let Value::Flag(b) = v {
                    self.resizable = Some(b);
                }
            },
            PropKey::Hotspot => {
                if let Value::Flag(b) = v {
                    self.hotspot = Some(b);
                }
            },
            PropKey::Divider => {
                if let Value::Flag(b) = v {
                    self.divider = Some(b);
                }
            },
            PropKey::Selected => {
                if let Value::Flag(b) = v {
                    self.selected = Some(b);
                }
            },
            PropKey::Color => {
                if let Value::Unsigned(n) = v {
                    self.color = Some(n);
                }
            },
            PropKey::SelectionColor => {
                if let Value::Unsigned(n) = v {
                    self.selection_color = Some(n);
                }
            },
            PropKey::Tooltip => {
                if let Value::Text(t) = v {
                    self.tooltip = Some(t);
                }
            },
            PropKey::Image => {
                if let Value::Text(t) = v {
                    self.image = Some(t);
                }
            },
            PropKey::Deimage => {
                if let Value::Text(t) = v {
                    self.deimage = Some(t);
                }
            },
            PropKey::BoxType => {
                if let Value::Text(t) = v {
                    self.box_type = Some(t);
                }
            },
            PropKey::DownBox => {
                if let Value::Text(t) = v {
                    self.down_box = Some(t);
                }
            },
            PropKey::Value => {
                if let Value::Text(t) = v {
                    self.value = Some(t);
                }
            },
            PropKey::Labeltype => {
                if let Value::Text(t) = v {
                    self.labeltype = Some(t);
                }
            },
            PropKey::Labelfont => {
                if let Value::Signed(n) = v {
                    self.labelfont = Some(n);
                }
            },
            PropKey::Labelsize => {
                if let Value::Signed(n) = v {
                    self.labelsize = Some(n);
                }
            },
            PropKey::Labelcolor => {
                if let Value::Unsigned(n) = v {
                    self.labelcolor = Some(n);
                }
            },
            PropKey::Align => {
                if let Value::Signed(n) = v {
                    self.align = Some(n);
                }
            },
            PropKey::When => {
                if let Value::Signed(n) = v {
                    self.when = Some(n);
                }
            },
            PropKey::Minimum => {
                if let Value::Real(d) = v {
                    self.minimum = Some(d);
                }
            },
            PropKey::Maximum => {
                if let Value::Real(d) = v {
                    self.maximum = Some(d);
                }
            },
            PropKey::Step => {
                if let Value::Real(d) = v {
                    self.step = Some(d);
                }
            },
            PropKey::SliderSize => {
                if let Value::Real(d) = v {
                    self.slider_size = Some(d);
                }
            },
            PropKey::Size => {
                if let Value::Real(d) = v {
                    self.size = Some(d);
                }
            },
            PropKey::Textfont => {
                if let Value::Signed(n) = v {
                    self.textfont = Some(n);
                }
            },
            PropKey::Textsize => {
                if let Value::Signed(n) = v {
                    self.textsize = Some(n);
                }
            },
            PropKey::Textcolor => {
                if let Value::Unsigned(n) = v {
                    self.textcolor = Some(n);
                }
            },
            PropKey::Class => {
                if let Value::Text(t) = v {
                    self.class = Some(t);
                }
            },
            PropKey::Shortcut => {
                if let Value::Text(t) = v {
                    self.shortcut = Some(t);
                }
            },
            PropKey::Code0 => {
                if let Value::Text(t) = v {
                    self.code0 = Some(t);
                }
            },
            PropKey::Code1 => {
                if let Value::Text(t) = v {
                    self.code1 = Some(t);
                }
            },
            PropKey::Code2 => {
                if let Value::Text(t) = v {
                    self.code2 = Some(t);
                }
            },
            PropKey::Code3 => {
                if let Value::Text(t) = v {
                    self.code3 = Some(t);
                }
            },
            PropKey::ExtraCode => {
                if let Value::Text(t) = v {
                    self.extra_code = Some(t);
                }
            },
            PropKey::SizeTuple => {
                if let Value::Text(t) = v {
                    self.size_tuple = Some(t);
                }
            },
            PropKey::Margins => {
                if let Value::Text(t) = v {
                    self.margins = Some(t);
                }
            },
            PropKey::Gap => {
                if let Value::Signed(n) = v {
                    self.gap = Some(n);
                }
            },
            PropKey::UserData => {
                if let Value::Text(t) = v {
                    self.user_data = Some(t);
                }
            },
            PropKey::UserDataType => {
                if let Value::Text(t) = v {
                    self.user_data_type = Some(t);
                }
            },
            PropKey::Callback => {
                if let Value::Text(t) = v {
                    self.callback = Some(t);
                }
            },
            PropKey::Comment => {
                if let Value::Text(t) = v {
                    self.comment = Some(t);
                }
            },
            _ => {},
        }
    }
}

impl Default for WidgetProps {
    fn default() -> (r: Self)
        ensures
            forall|k: PropKey| #[trigger] r.get(k) is None,
    {
        WidgetProps {
            open: None,
            xywh: None,
            label: None,
            typ: None,
            hide: None,
            deactivate: None,
            visible: None,
            modal: None,
            non_modal: None,
            noborder: None,
            xclass: None,
            size_range: None,
            resizable: None,
            hotspot: None,
            divider: None,
            selected: None,
            color: None,
            selection_color: None,
            tooltip: None,
            image: None,
            deimage: None,
            box_type: None,
            down_box: None,
            value: None,
            labeltype: None,
            labelfont: None,
            labelsize: None,
            labelcolor: None,
            align: None,
            when: None,
            minimum: None,
            maximum: None,
            step: None,
            slider_size: None,
            size: None,
            textfont: None,
            textsize: None,
            textcolor: None,
            class: None,
            shortcut: None,
            code0: None,
            code1: None,
            code2: None,
            code3: None,
            extra_code: None,
            size_tuple: None,
            margins: None,
            gap: None,
            user_data: None,
            user_data_type: None,
            callback: None,
            comment: None,
        }
    }
}

/// One widget: its type, its instance name (empty when it has none), its
/// properties and the widgets it contains, in order.
#[derive(Debug)]
pub struct Widget {
    pub typ: String,
    pub name: String,
    pub props: WidgetProps,
    pub children: Vec<Widget>,
}

/// A widget as a mathematical value.
pub ghost struct WidgetModel {
    pub typ: Seq<char>,
    pub name: Seq<char>,
    pub props: Map<PropKey, PropValue>,
    pub children: Seq<WidgetModel>,
}

impl Widget {
    /// The widget is the value `m`.
    pub open spec fn models(&self, m: WidgetModel) -> bool
        decreases m,
    {
        &&& self.typ@ == m.typ
        &&& self.name@ == m.name
        &&& self.props.holds(m.props)
        &&& self.children@.len() == m.children.len()
        &&& forall|i: int|
            #![trigger self.children@[i]]
            0 <= i < m.children.len() ==> self.children@[i].models(m.children[i])
    }

    /// The two widgets are equal field for field: one value describes both,
    /// their types, names, properties and, in order, their children.
    pub open spec fn same(&self, o: &Widget) -> bool {
        exists|m: WidgetModel| self.models(m) && o.models(m)
    }

    /// Two widgets that are one value are the same.
    pub proof fn lemma_same(a: &Widget, b: &Widget, m: WidgetModel)
        requires
            a.models(m),
            b.models(m),
        ensures
            a.same(b),
    {
        assert(a.models(m) && b.models(m));
    }
}

/// The properties of functions.
pub open spec fn is_function_key(k: PropKey) -> bool {
    k is Visibility || k is Open || k is CLinkage || k is ReturnType || k is Comment
}

/// The properties of a function.
#[derive(Debug)]
pub struct FunctionProps {
    pub visibility: Option<Visibility>,
    pub open: Option<bool>,
    pub c: Option<bool>,
    pub return_type: Option<String>,
    pub comment: Option<String>,
}

impl FunctionProps {
    /// The value of property `k`.
    pub open spec fn get(&self, k: PropKey) -> Option<PropValue> {
        match k {
            PropKey::Visibility => vis_value(self.visibility),
            PropKey::Open => flag_value(self.open),
            PropKey::CLinkage => flag_value(self.c),
            PropKey::ReturnType => text_value(self.return_type),
            PropKey::Comment => text_value(self.comment),
            _ => None,
        }
    }

    /// The properties are those of the map `m`.
    pub open spec fn holds(&self, m: Map<PropKey, PropValue>) -> bool {
        forall|k: PropKey| #[trigger] self.get(k) == map_value(m, k)
    }

    /// Gives property `key` the value `v`, and leaves the others.
    pub fn set(&mut self, key: PropKey, v: Value)
        requires
            is_function_key(key),
            kind_of(v@) == key_kind(key),
        ensures
            forall|k: PropKey|
                #[trigger] final(self).get(k) == if k == key {
                    Some(v@)
                } else {
                    old(self).get(k)
                },
    {
        match (key, v) {
            (PropKey::Visibility, Value::Vis(x)) => self.visibility = Some(x),
            (PropKey::Open, Value::Flag(b)) => self.open = Some(b),
            (PropKey::CLinkage, Value::Flag(b)) => self.c = Some(b),
            (PropKey::ReturnType, Value::Text(t)) => self.return_type = Some(t),
            (PropKey::Comment, Value::Text(t)) => self.comment = Some(t),
            _ => {},
        }
    }
}

impl Default for FunctionProps {
    fn default() -> (r: Self)
        ensures
            forall|k: PropKey| #[trigger] r.get(k) is None,
    {
        FunctionProps { visibility: None, open: None, c: None, return_type: None, comment: None }
    }
}

/// A function: its signature as written (`make_window()`), its properties,
/// its code, and the widgets it builds, in order.
#[derive(Debug)]
pub struct Function {
    pub name: String,
    pub props: FunctionProps,
    pub code: Option<String>,
    pub widgets: Vec<Widget>,
}

/// A function as a mathematical value.
pub ghost struct FunctionModel {
    pub name: Seq<char>,
    pub props: Map<PropKey, PropValue>,
    pub code: Option<Seq<char>>,
    pub widgets: Seq<WidgetModel>,
}

impl Function {
    /// The function is the value `m`.
    pub open spec fn models(&self, m: FunctionModel) -> bool {
        &&& self.name@ == m.name
        &&& self.props.holds(m.props)
        &&& opt_text(self.code) == m.code
        &&& self.widgets@.len() == m.widgets.len()
        &&& forall|i: int|
            0 <= i < m.widgets.len() ==> #[trigger] self.widgets@[i].models(m.widgets[i])
    }

    /// The two functions are equal field for field.
    pub open spec fn same(&self, o: &Function) -> bool {
        &&& self.name@ == o.name@
        &&& (forall|k: PropKey| #[trigger] self.props.get(k) == o.props.get(k))
        &&& opt_text(self.code) == opt_text(o.code)
        &&& self.widgets@.len() == o.widgets@.len()
        &&& forall|i: int|
            #![trigger self.widgets@[i]]
            0 <= i < self.widgets@.len() ==> self.widgets@[i].same(&o.widgets@[i])
    }

    /// Two functions that are one value are the same.
    pub proof fn lemma_same(a: &Function, b: &Function, m: FunctionModel)
        requires
            a.models(m),
            b.models(m),
        ensures
            a.same(b),
    {
        assert forall|i: int| 0 <= i < a.widgets@.len() implies #[trigger] a.widgets@[i].same(
            &b.widgets@[i],
        ) by {
            Widget::lemma_same(&a.widgets@[i], &b.widgets@[i], m.widgets[i]);
        }
    }
}

/// The properties of classes.
pub open spec fn is_class_key(k: PropKey) -> bool {
    k is Visibility || k is Open || k is Comment
}

/// The properties of a class.
#[derive(Debug)]
pub struct ClassProps {
    pub visibility: Option<Visibility>,
    pub open: Option<bool>,
    pub comment: Option<String>,
}

impl ClassProps {
    /// The value of property `k`.
    pub open spec fn get(&self, k: PropKey) -> Option<PropValue> {
        match k {
            PropKey::Visibility => vis_value(self.visibility),
            PropKey::Open => flag_value(self.open),
            PropKey::Comment => text_value(self.comment),
            _ => None,
        }
    }

    /// The properties are those of the map `m`.
    pub open spec fn holds(&self, m: Map<PropKey, PropValue>) -> bool {
        forall|k: PropKey| #[trigger] self.get(k) == map_value(m, k)
    }

    /// Gives property `key` the value `v`, and leaves the others.
    pub fn set(&mut self, key: PropKey, v: Value)
        requires
            is_class_key(key),
            kind_of(v@) == key_kind(key),
        ensures
            forall|k: PropKey|
                #[trigger] final(self).get(k) == if k == key {
                    Some(v@)
                } else {
                    old(self).get(k)
                },
    {
        match (key, v) {
            (PropKey::Visibility, Value::Vis(x)) => self.visibility = Some(x),
            (PropKey::Open, Value::Flag(b)) => self.open = Some(b),
            (PropKey::Comment, Value::Text(t)) => self.comment = Some(t),
            _ => {},
        }
    }
}

impl Default for ClassProps {
    fn default() -> (r: Self)
        ensures
            forall|k: PropKey| #[trigger] r.get(k) is None,
    {
        ClassProps { visibility: None, open: None, comment: None }
    }
}

/// A class: its name, its properties and its functions, in order.
#[derive(Debug)]
pub struct Class {
    pub name: String,
    pub props: ClassProps,
    pub functions: Vec<Function>,
}

/// A class as a mathematical value.
pub ghost struct ClassModel {
    pub name: Seq<char>,
    pub props: Map<PropKey, PropValue>,
    pub functions: Seq<FunctionModel>,
}

impl Class {
    /// The class is the value `m`.
    pub open spec fn models(&self, m: ClassModel) -> bool {
        &&& self.name@ == m.name
        &&& self.props.holds(m.props)
        &&& self.functions@.len() == m.functions.len()
        &&& forall|i: int|
            0 <= i < m.functions.len() ==> #[trigger] self.functions@[i].models(m.functions[i])
    }

    /// The two classes are equal field for field.
    pub open spec fn same(&self, o: &Class) -> bool {
        &&& self.name@ == o.name@
        &&& (forall|k: PropKey| #[trigger] self.props.get(k) == o.props.get(k))
        &&& self.functions@.len() == o.functions@.len()
        &&& forall|i: int|
            #![trigger self.functions@[i]]
            0 <= i < self.functions@.len() ==> self.functions@[i].same(&o.functions@[i])
    }

    /// Two classes that are one value are the same.
    pub proof fn lemma_same(a: &Class, b: &Class, m: ClassModel)
        requires
            a.models(m),
            b.models(m),
        ensures
            a.same(b),
    {
        assert forall|i: int| 0 <= i < a.functions@.len() implies #[trigger] a.functions@[i].same(
            &b.functions@[i],
        ) by {
            Function::lemma_same(&a.functions@[i], &b.functions@[i], m.functions[i]);
        }
    }
}

/// The properties of declarations.
pub open spec fn is_decl_key(k: PropKey) -> bool {
    k is Visibility || k is Global || k is Local
}

/// The properties of a declaration.
#[derive(Debug)]
pub struct DeclProps {
    pub visibility: Option<Visibility>,
    pub global: Option<bool>,
    pub local: Option<bool>,
}

impl DeclProps {
    /// The value of property `k`.
    pub open spec fn get(&self, k: PropKey) -> Option<PropValue> {
        match k {
            PropKey::Visibility => vis_value(self.visibility),
            PropKey::Global => flag_value(self.global),
            PropKey::Local => flag_value(self.local),
            _ => None,
        }
    }

    /// The properties are those of the map `m`.
    pub open spec fn holds(&self, m: Map<PropKey, PropValue>) -> bool {
        forall|k: PropKey| #[trigger] self.get(k) == map_value(m, k)
    }

    /// Gives property `key` the value `v`, and leaves the others.
    pub fn set(&mut self, key: PropKey, v: Value)
        requires
            is_decl_key(key),
            kind_of(v@) == key_kind(key),
        ensures
            forall|k: PropKey|
                #[trigger] final(self).get(k) == if k == key {
                    Some(v@)
                } else {
                    old(self).get(k)
                },
    {
        match (key, v) {
            (PropKey::Visibility, Value::Vis(x)) => self.visibility = Some(x),
            (PropKey::Global, Value::Flag(b)) => self.global = Some(b),
            (PropKey::Local, Value::Flag(b)) => self.local = Some(b),
            _ => {},
        }
    }
}

impl Default for DeclProps {
    fn default() -> (r: Self)
        ensures
            forall|k: PropKey| #[trigger] r.get(k) is None,
    {
        DeclProps { visibility: None, global: None, local: None }
    }
}

/// A declaration: its text and its properties.
#[derive(Debug)]
pub struct Decl {
    pub decl: String,
    pub props: DeclProps,
}

/// The properties of comments.
pub open spec fn is_comment_key(k: PropKey) -> bool {
    k is InSource || k is InHeader
}

/// Where a comment goes: into the generated source, the generated header.
#[derive(Debug)]
pub struct CommentProps {
    pub in_source: Option<bool>,
    pub in_header: Option<bool>,
}

impl CommentProps {
    /// The value of property `k`.
    pub open spec fn get(&self, k: PropKey) -> Option<PropValue> {
        match k {
            PropKey::InSource => flag_value(self.in_source),
            PropKey::InHeader => flag_value(self.in_header),
            _ => None,
        }
    }

    /// The properties are those of the map `m`.
    pub open spec fn holds(&self, m: Map<PropKey, PropValue>) -> bool {
        forall|k: PropKey| #[trigger] self.get(k) == map_value(m, k)
    }

    /// Gives property `key` the value `v`, and leaves the others.
    pub fn set(&mut self, key: PropKey, v: Value)
        requires
            is_comment_key(key),
            kind_of(v@) == key_kind(key),
        ensures
            forall|k: PropKey|
                #[trigger] final(self).get(k) == if k == key {
                    Some(v@)
                } else {
                    old(self).get(k)
                },
    {
        match (key, v) {
            (PropKey::InSource, Value::Flag(b)) => self.in_source = Some(b),
            (PropKey::InHeader, Value::Flag(b)) => self.in_header = Some(b),
            _ => {},
        }
    }
}

impl Default for CommentProps {
    fn default() -> (r: Self)
        ensures
            forall|k: PropKey| #[trigger] r.get(k) is None,
    {
        CommentProps { in_source: None, in_header: None }
    }
}

/// A comment: its text and where it goes.
#[derive(Debug)]
pub struct Comment {
    pub comment: String,
    pub props: CommentProps,
}

/// A comment or a declaration as a mathematical value: its text and its
/// properties.
pub ghost struct NoteModel {
    pub text: Seq<char>,
    pub props: Map<PropKey, PropValue>,
}

impl Decl {
    /// The two declarations are equal field for field.
    pub open spec fn same(&self, o: &Decl) -> bool {
        self.decl@ == o.decl@ && forall|k: PropKey| #[trigger] self.props.get(k) == o.props.get(k)
    }

    /// The declaration is the value `m`.
    pub open spec fn models(&self, m: NoteModel) -> bool {
        self.decl@ == m.text && self.props.holds(m.props)
    }
}

impl Comment {
    /// The two comments are equal field for field.
    pub open spec fn same(&self, o: &Comment) -> bool {
        self.comment@ == o.comment@ && forall|k: PropKey| #[trigger] self.props.get(k) == o.props.get(k)
    }

    /// The comment is the value `m`.
    pub open spec fn models(&self, m: NoteModel) -> bool {
        self.comment@ == m.text && self.props.holds(m.props)
    }
}

/// A whole project: its format version, whether it is internationalized,
/// the names of its header and code files, and its classes, widget classes,
/// functions, comments and declarations, each in the order of the text.
#[derive(Debug)]
pub struct Ast {
    pub version: Option<Decimal>,
    pub i18n_type: Option<bool>,
    pub header_name: Option<String>,
    pub code_name: Option<String>,
    pub classes: Vec<Class>,
    pub widget_classes: Vec<Widget>,
    pub functions: Vec<Function>,
    pub comments: Vec<Comment>,
    pub decls: Vec<Decl>,
}

/// A project as a mathematical value.
pub ghost struct AstModel {
    pub version: Option<Decimal>,
    pub i18n_type: Option<bool>,
    pub header_name: Option<Seq<char>>,
    pub code_name: Option<Seq<char>>,
    pub classes: Seq<ClassModel>,
    pub widget_classes: Seq<WidgetModel>,
    pub functions: Seq<FunctionModel>,
    pub comments: Seq<NoteModel>,
    pub decls: Seq<NoteModel>,
}

impl Ast {
    /// The project is the value `m`.
    pub open spec fn models(&self, m: AstModel) -> bool {
        &&& self.version == m.version
        &&& self.i18n_type == m.i18n_type
        &&& opt_text(self.header_name) == m.header_name
        &&& opt_text(self.code_name) == m.code_name
        &&& self.classes@.len() == m.classes.len()
        &&& (forall|i: int|
            0 <= i < m.classes.len() ==> #[trigger] self.classes@[i].models(m.classes[i]))
        &&& self.widget_classes@.len() == m.widget_classes.len()
        &&& (forall|i: int|
            0 <= i < m.widget_classes.len() ==> #[trigger] self.widget_classes@[i].models(
                m.widget_classes[i],
            ))
        &&& self.functions@.len() == m.functions.len()
        &&& (forall|i: int|
            0 <= i < m.functions.len() ==> #[trigger] self.functions@[i].models(m.functions[i]))
        &&& self.comments@.len() == m.comments.len()
        &&& (forall|i: int|
            0 <= i < m.comments.len() ==> #[trigger] self.comments@[i].models(m.comments[i]))
        &&& self.decls@.len() == m.decls.len()
        &&& (forall|i: int|
            0 <= i < m.decls.len() ==> #[trigger] self.decls@[i].models(m.decls[i]))
    }

    /// The two projects are equal field for field.
    pub open spec fn same(&self, o: &Ast) -> bool {
        &&& self.version == o.version
        &&& self.i18n_type == o.i18n_type
        &&& opt_text(self.header_name) == opt_text(o.header_name)
        &&& opt_text(self.code_name) == opt_text(o.code_name)
        &&& self.classes@.len() == o.classes@.len()
        &&& (forall|i: int|
            #![trigger self.classes@[i]]
            0 <= i < self.classes@.len() ==> self.classes@[i].same(&o.classes@[i]))
        &&& self.widget_classes@.len() == o.widget_classes@.len()
        &&& (forall|i: int|
            #![trigger self.widget_classes@[i]]
            0 <= i < self.widget_classes@.len() ==> self.widget_classes@[i].same(&o.widget_classes@[i]))
        &&& self.functions@.len() == o.functions@.len()
        &&& (forall|i: int|
            #![trigger self.functions@[i]]
            0 <= i < self.functions@.len() ==> self.functions@[i].same(&o.functions@[i]))
        &&& self.comments@.len() == o.comments@.len()
        &&& (forall|i: int|
            #![trigger self.comments@[i]]
            0 <= i < self.comments@.len() ==> self.comments@[i].same(&o.comments@[i]))
        &&& self.decls@.len() == o.decls@.len()
        &&& (forall|i: int|
            #![trigger self.decls@[i]]
            0 <= i < self.decls@.len() ==> self.decls@[i].same(&o.decls@[i]))
    }

    /// Two projects that are one value are the same.
    pub proof fn lemma_same(a: &Ast, b: &Ast, m: AstModel)
        requires
            a.models(m),
            b.models(m),
        ensures
            a.same(b),
    {
        assert forall|i: int| 0 <= i < a.classes@.len() implies #[trigger] a.classes@[i].same(&b.classes@[i]) by {
            Class::lemma_same(&a.classes@[i], &b.classes@[i], m.classes[i]);
        }
        assert forall|i: int| 0 <= i < a.widget_classes@.len() implies #[trigger] a.widget_classes@[i].same(
            &b.widget_classes@[i],
        ) by {
            Widget::lemma_same(&a.widget_classes@[i], &b.widget_classes@[i], m.widget_classes[i]);
        }
        assert forall|i: int| 0 <= i < a.functions@.len() implies #[trigger] a.functions@[i].same(
            &b.functions@[i],
        ) by {
            Function::lemma_same(&a.functions@[i], &b.functions@[i], m.functions[i]);
        }
        assert forall|i: int| 0 <= i < a.comments@.len() implies #[trigger] a.comments@[i].same(
            &b.comments@[i],
        ) by {
            assert(a.comments@[i].models(m.comments[i]));
            assert(b.comments@[i].models(m.comments[i]));
        }
        assert forall|i: int| 0 <= i < a.decls@.len() implies #[trigger] a.decls@[i].same(&b.decls@[i]) by {
            assert(a.decls@[i].models(m.decls[i]));
            assert(b.decls@[i].models(m.decls[i]));
        }
        assert(a.version == b.version);
        assert(a.i18n_type == b.i18n_type);
        assert(opt_text(a.header_name) == opt_text(b.header_name));
        assert(opt_text(a.code_name) == opt_text(b.code_name));
    }
}

} // verus!
