use fluid_parser::grammar::ParseError;
use fluid_parser::numeral::Decimal;
use fluid_parser::parser::parse_text;

const WINDOW: &str = r#"# data file for the Fltk User Interface Designer (fluid)
version 1.0400
header_name {.h}
code_name {.cxx}
avoid_early_includes
class UserInterface {open
} {
  Function {make_window()} {open
  } {
    Fl_Window Hello {open
      xywh {821 256 400 344} type Double align 80 resizable visible
    } {
      Fl_Flex {} {open
        xywh {5 5 390 335} resizable gap 5 set_size_tuples {2  0 30  2 30 }
      } {
        Fl_Flex {} {open
          xywh {5 5 390 30} type HORIZONTAL gap 5 set_size_tuples {3  0 80  1 80  3 30 }
        } {
          Fl_Menu_Button {} {
            label menu open
            xywh {5 5 80 30}
          } {}
          Fl_Box {} {
            label {https://}
            xywh {90 5 80 30}
          }
          Fl_Input {} {
            xywh {175 5 185 30}
          }
          Fl_Button {} {
            label I
            xywh {365 5 30 30}
          }
        }
        Fl_Flex Nmae {open
          xywh {5 40 390 265} type HORIZONTAL gap 5
        } {
          Fl_Text_Display {} {
            xywh {5 40 390 265}
          }
        }
      }
    }
  }
}"#;

#[test]
fn version_alone() {
    let a = parse_text("version 1.0400").unwrap();
    assert_eq!(a.version, Some(Decimal { negative: false, mantissa: 10400, exponent: -4 }));
    assert_eq!(a.i18n_type, None);
    assert!(a.header_name.is_none());
    assert!(a.code_name.is_none());
    assert!(a.classes.is_empty());
    assert!(a.widget_classes.is_empty());
    assert!(a.functions.is_empty());
    assert!(a.comments.is_empty());
    assert!(a.decls.is_empty());
}

#[test]
fn function_with_one_window() {
    let a = parse_text(
        "Function {make_window()} {open} {Fl_Window Hello {open} {xywh {0 0 100 100}} {}}",
    )
    .unwrap();
    assert_eq!(a.functions.len(), 1);
    let f = &a.functions[0];
    assert_eq!(f.name, "make_window()");
    assert_eq!(f.props.open, Some(true));
    assert_eq!(f.widgets.len(), 1);
    let w = &f.widgets[0];
    assert_eq!(w.typ, "Fl_Window");
    assert_eq!(w.name, "Hello");
    assert_eq!(w.props.open, Some(true));
    assert_eq!(w.props.xywh.as_deref(), Some("0 0 100 100"));
    assert!(w.children.is_empty());
}

#[test]
fn nested_containers_keep_order() {
    let a = parse_text(
        "Function {f()} {open} {\n  Fl_Window {} {open xywh {0 0 10 10}} {\n    Fl_Menu_Bar {} {xywh {0 0 10 2}}\n    Fl_Text_Display {} {xywh {0 2 10 8}}\n  }\n}",
    )
    .unwrap();
    let w = &a.functions[0].widgets[0];
    assert_eq!(w.children.len(), 2);
    assert_eq!(w.children[0].typ, "Fl_Menu_Bar");
    assert_eq!(w.children[1].typ, "Fl_Text_Display");
    assert!(w.children[0].children.is_empty());
    assert!(w.children[1].children.is_empty());
    assert_eq!(w.children[1].props.xywh.as_deref(), Some("0 2 10 8"));
}

#[test]
fn whole_project_file() {
    let a = parse_text(WINDOW).unwrap();
    assert_eq!(a.version, Some(Decimal { negative: false, mantissa: 10400, exponent: -4 }));
    assert_eq!(a.header_name.as_deref(), Some(".h"));
    assert_eq!(a.code_name.as_deref(), Some(".cxx"));
    assert_eq!(a.classes.len(), 1);
    let c = &a.classes[0];
    assert_eq!(c.name, "UserInterface");
    assert_eq!(c.props.open, Some(true));
    assert_eq!(c.functions.len(), 1);
    let f = &c.functions[0];
    assert_eq!(f.name, "make_window()");
    let win = &f.widgets[0];
    assert_eq!(win.typ, "Fl_Window");
    assert_eq!(win.name, "Hello");
    assert_eq!(win.props.xywh.as_deref(), Some("821 256 400 344"));
    assert_eq!(win.props.typ.as_deref(), Some("Double"));
    assert_eq!(win.props.align, Some(80));
    assert_eq!(win.props.resizable, Some(true));
    assert_eq!(win.props.visible, Some(true));
    assert_eq!(win.children.len(), 1);
    let outer = &win.children[0];
    assert_eq!(outer.typ, "Fl_Flex");
    assert_eq!(outer.name, "");
    assert_eq!(outer.props.gap, Some(5));
    assert_eq!(outer.props.size_tuple.as_deref(), Some("2  0 30  2 30 "));
    assert_eq!(outer.children.len(), 2);
    let row = &outer.children[0];
    assert_eq!(row.children.len(), 4);
    assert_eq!(row.children[0].typ, "Fl_Menu_Button");
    assert_eq!(row.children[0].props.label.as_deref(), Some("menu"));
    assert_eq!(row.children[1].props.label.as_deref(), Some("https://"));
    assert_eq!(row.children[2].typ, "Fl_Input");
    assert_eq!(row.children[3].props.label.as_deref(), Some("I"));
    let second = &outer.children[1];
    assert_eq!(second.name, "Nmae");
    assert_eq!(second.children.len(), 1);
    assert_eq!(second.children[0].typ, "Fl_Text_Display");
}

#[test]
fn absent_flag_stays_absent() {
    let a = parse_text("Function {f()} {} {Fl_Box {} {xywh {1 2 3 4}} Fl_Box {} {resizable}}").unwrap();
    let ws = &a.functions[0].widgets;
    assert_eq!(ws.len(), 2);
    assert_eq!(ws[0].props.resizable, None);
    assert_eq!(ws[0].props.hide, None);
    assert_eq!(ws[0].props.color, None);
    assert_eq!(ws[1].props.resizable, Some(true));
    assert_eq!(ws[1].props.xywh, None);
}

#[test]
fn color_rejects_word() {
    let text = "Function {f()} {} {Fl_Box {} {color abc}}";
    let r = parse_text(text);
    assert_eq!(
        r.unwrap_err(),
        ParseError::InvalidNumericLiteral { keyword: 30, start: 36, end: 39 }
    );
}

#[test]
fn numbers_of_each_kind() {
    let a = parse_text(
        "Function {f()} {} {Fl_Slider {} {color 4294967295 labelsize -3 minimum -.5 maximum 1e+06 step 0.25}}",
    )
    .unwrap();
    let p = &a.functions[0].widgets[0].props;
    assert_eq!(p.color, Some(4294967295));
    assert_eq!(p.labelsize, Some(-3));
    assert_eq!(p.minimum, Some(Decimal { negative: true, mantissa: 5, exponent: -1 }));
    assert_eq!(p.maximum, Some(Decimal { negative: false, mantissa: 1, exponent: 6 }));
    assert_eq!(p.step, Some(Decimal { negative: false, mantissa: 25, exponent: -2 }));
}

#[test]
fn color_out_of_range_is_rejected() {
    let r = parse_text("Function {f()} {} {Fl_Box {} {color 4294967296}}");
    assert!(matches!(r, Err(ParseError::InvalidNumericLiteral { .. })));
}

#[test]
fn unterminated_block() {
    assert_eq!(parse_text("Function {f()").unwrap_err(), ParseError::UnterminatedBlock { open: 9 });
    assert_eq!(
        parse_text("Function {f()} {open").unwrap_err(),
        ParseError::UnterminatedBlock { open: 15 }
    );
}

#[test]
fn stray_close_brace() {
    assert_eq!(parse_text("  }").unwrap_err(), ParseError::UnexpectedStructure { at: 2 });
}

#[test]
fn missing_property_block() {
    assert_eq!(
        parse_text("Function {f()} open").unwrap_err(),
        ParseError::UnexpectedStructure { at: 15 }
    );
}

#[test]
fn premature_end() {
    assert_eq!(parse_text("version").unwrap_err(), ParseError::PrematureEndOfInput);
    assert_eq!(parse_text("Function").unwrap_err(), ParseError::PrematureEndOfInput);
}

#[test]
fn same_text_same_tree() {
    let a = parse_text(WINDOW).unwrap();
    let b = parse_text(WINDOW).unwrap();
    assert_eq!(format!("{:?}", a), format!("{:?}", b));
}

#[test]
fn block_text_is_exact_and_balanced() {
    let a = parse_text("Function {f()} {} {\n  code {if (x) {\n    y();\n  }} {}\n}").unwrap();
    let code = a.functions[0].code.as_deref().unwrap();
    assert_eq!(code, "if (x) {\n    y();\n  }");
    assert_eq!(code.matches('{').count(), code.matches('}').count());
}

#[test]
fn open_brace_stays_inside_word() {
    let a = parse_text("Function {f()} {} {Fl_Box {} {label a{b xywh {1 2 3 4}}}").unwrap();
    let w = &a.functions[0].widgets[0];
    assert_eq!(w.props.label.as_deref(), Some("a{b"));
    assert_eq!(w.props.xywh.as_deref(), Some("1 2 3 4"));
}

#[test]
fn close_brace_after_word_brace_ends_block() {
    assert_eq!(
        parse_text("decl {int a[]={1,2};} {private global}").unwrap_err(),
        ParseError::UnexpectedStructure { at: 20 }
    );
}

#[test]
fn declaration_properties() {
    let a = parse_text("decl {int a;} {private global}").unwrap();
    assert_eq!(a.decls[0].decl, "int a;");
    assert_eq!(a.decls[0].props.visibility, Some(fluid_parser::ast::Visibility::PRIVATE));
    assert_eq!(a.decls[0].props.global, Some(true));
    assert_eq!(a.decls[0].props.local, None);
}

#[test]
fn signature_must_be_a_block() {
    assert_eq!(
        parse_text("Function f() {}").unwrap_err(),
        ParseError::UnexpectedStructure { at: 9 }
    );
}

#[test]
fn end_inside_property_block() {
    assert_eq!(
        parse_text("Function {f()} {} {Fl_Box {} {color").unwrap_err(),
        ParseError::UnterminatedBlock { open: 29 }
    );
    assert_eq!(
        parse_text("Function {f()} {} {Fl_Box {} {label").unwrap_err(),
        ParseError::UnterminatedBlock { open: 29 }
    );
}

#[test]
fn end_inside_children_block() {
    assert_eq!(
        parse_text("Function {f()} {} {Fl_Group {} {} {Fl_Box").unwrap_err(),
        ParseError::UnterminatedBlock { open: 34 }
    );
}

#[test]
fn comments_and_declarations() {
    let a = parse_text("comment {hello world} {in_source}\ndecl {#include <x>} {}\ni18n_type 1\n").unwrap();
    assert_eq!(a.comments.len(), 1);
    assert_eq!(a.comments[0].comment, "hello world");
    assert_eq!(a.comments[0].props.in_source, Some(true));
    assert_eq!(a.comments[0].props.in_header, None);
    assert_eq!(a.decls[0].decl, "#include <x>");
    assert_eq!(a.decls[0].props.visibility, None);
    assert_eq!(a.i18n_type, Some(true));
}

#[test]
fn class_members() {
    let a = parse_text(
        "class Foo {private comment {a class}} {\n Function {g()} {protected C return_type {int *}} {}\n comment later\n}",
    )
    .unwrap();
    let c = &a.classes[0];
    assert_eq!(c.props.visibility, Some(fluid_parser::ast::Visibility::PRIVATE));
    assert_eq!(c.props.comment.as_deref(), Some("later"));
    let f = &c.functions[0];
    assert_eq!(f.props.visibility, Some(fluid_parser::ast::Visibility::PROTECTED));
    assert_eq!(f.props.c, Some(true));
    assert_eq!(f.props.return_type.as_deref(), Some("int *"));
}

#[test]
fn widget_class_and_unknown_words() {
    let a = parse_text("snap {ver 1} widget_class Panel {open xywh {0 0 5 5}} {Fl_Button b {label Go}}").unwrap();
    assert!(a.functions.is_empty());
    assert_eq!(a.widget_classes.len(), 1);
    let w = &a.widget_classes[0];
    assert_eq!(w.typ, "widget_class");
    assert_eq!(w.name, "Panel");
    assert_eq!(w.children.len(), 1);
    assert_eq!(w.children[0].name, "b");
    assert_eq!(w.children[0].props.label.as_deref(), Some("Go"));
}

#[test]
fn empty_text() {
    let a = parse_text("").unwrap();
    assert!(a.version.is_none());
    assert!(a.functions.is_empty());
}

#[test]
fn child_named_with_type_tag_is_one_child() {
    let a = parse_text("Function {f()} {} {Fl_Group {} {} {Fl_Box Fl_name {} Fl_Box {} {}}}").unwrap();
    let g = &a.functions[0].widgets[0];
    assert_eq!(g.children.len(), 2);
    assert_eq!(g.children[0].name, "Fl_name");
    assert_eq!(g.children[1].name, "");
}

#[test]
fn later_property_block_adds_properties() {
    let a = parse_text("Function {f()} {} {Fl_Box b {open} {label x} {tooltip {hi there}}}").unwrap();
    let w = &a.functions[0].widgets[0];
    assert_eq!(w.props.open, Some(true));
    assert_eq!(w.props.label.as_deref(), Some("x"));
    assert_eq!(w.props.tooltip.as_deref(), Some("hi there"));
    assert!(w.children.is_empty());
}

#[test]
fn unknown_nested_property_block_is_passed_over() {
    let a = parse_text(
        "Function {f()} {} {Fl_Button {} {label B parent_properties {location {0 0}} xywh {1 2 3 4}}}",
    )
    .unwrap();
    let w = &a.functions[0].widgets[0];
    assert_eq!(w.props.label.as_deref(), Some("B"));
    assert_eq!(w.props.xywh.as_deref(), Some("1 2 3 4"));
}
