use lox::expr;

#[test]
fn expr_bp() {
    let x = expr("1");
    assert_eq!(x.to_string(), " 1");

    let x = expr("((((0))))");
    assert_eq!(x.to_string(), " 0");

    let x = expr("x + 1");
    assert_eq!(x.to_string(), "(Plus x 1)");

    let x = expr("x{0}{1}");
    assert_eq!(x.to_string(), "(LeftBrace(LeftBrace x 0) 1)");

    let x = expr("1 + 2 * 3 - 3 / 4");
    assert_eq!(x.to_string(), "(Minus(Plus 1(Star 2 3))(Slash 3 4))");

    let x = expr("- 1 + 2");
    assert_eq!(x.to_string(), "(Plus(Minus 1) 2)");

    let x = expr("- 1! + 2");
    assert_eq!(x.to_string(), "(Plus(Minus(Bang 1)) 2)");

    let x = expr(
        "a ? 1 + 2 :
         c ? d
         : e",
    );
    assert_eq!(x.to_string(), "(Ternary a(Plus 1 2)(Ternary c d e))");

    let x = expr("a = 0 ? b : c = d");
    assert_eq!(x.to_string(), "(Equal a(Equal(Ternary 0 b c) d))");
}
