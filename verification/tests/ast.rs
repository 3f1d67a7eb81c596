use lom::ast::{Span, Type};

#[test]
fn span_at_is_a_point() {
    let sp = Span::at(3, 7);
    assert_eq!(sp, Span { line: 3, col: 7, end_line: 3, end_col: 7 });
}

#[test]
fn type_from_name_builtins_and_named() {
    assert_eq!(Type::from_name("Int"), Type::Int);
    assert_eq!(Type::from_name("Float"), Type::Float);
    assert_eq!(Type::from_name("Bool"), Type::Bool);
    assert_eq!(Type::from_name("String"), Type::String);
    assert_eq!(Type::from_name("Unit"), Type::Unit);
    assert_eq!(Type::from_name("Color"), Type::Named("Color".to_string()));
    assert_eq!(Type::from_name("int"), Type::Named("int".to_string()));
}
