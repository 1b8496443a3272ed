use rbrep::config::Config;
use rbrep::expr::Expr;
use rbrep::input::{FileBufferInput, MemorySource};

fn validate(expected: &str, expr: &str, input: &str) {
    let input: Vec<u8> = input.bytes().collect();
    let expr = Expr::tree_from(expr).unwrap();
    let mut window = FileBufferInput::new(MemorySource::new(input));
    let (output, done) = Expr::apply(&expr, &mut window, String::new(), "stdin", &Config::new());
    done.unwrap();
    assert_eq!(expected, &output);
}

#[test]
fn values() {
    validate("stdin\n00000000\t30\n", "30", "01");
    validate("stdin\n00000001\t31\n", "31", "01");
}

#[test]
fn any() {
    validate("stdin\n00000000\t30\n00000001\t31\n", "??", "01");
}

#[test]
fn string() {
    validate("stdin\n00000002\t48656c6c6f\n", "\"Hello\"", "12Hello34");
}

#[test]
fn range() {
    validate("stdin\n00000000\t30\n00000001\t31\n", "30-32", "01234");
}

#[test]
fn or_group() {
    validate("stdin\n00000000\t30\n00000002\t32\n", "(3032)", "01234");
}

#[test]
fn and_group() {
    validate("stdin\n00000000\t3032\n", "&(3032)", "02134");
    validate("stdin\n00000000\t303132\n", "30&(3132)", "01201");
}

#[test]
fn and() {
    validate(
        "stdin\n00000000\t30\n00000001\t31\n00000002\t32\n00000003\t33\n00000004\t34\n",
        "&30",
        "01234ABC",
    );
}

#[test]
fn not() {
    validate(
        "stdin\n00000005\t41\n00000006\t42\n00000007\t43\n",
        "!&30",
        "01234ABC",
    );
}

#[test]
fn mul() {
    validate("stdin\n00000002\t3131\n", "31*2;", "00112233");
}

#[test]
fn nesting() {
    validate(
        "stdin\n00000001\t31323342\n00000006\t31323441\n",
        "3132(3334)41-43",
        "0123B0124A",
    );
}

#[test]
fn optional() {
    validate("stdin\n00000000\t30\n00000001\t3031\n", "3031*0;", "0012")
}

#[test]
fn many() {
    validate("stdin\n00000002\t3031313132\n", "3031*1+;32", "0001112");
}

#[test]
fn many_optional() {
    validate("stdin\n00000002\t3032\n", "3031*0+;32", "0002");
    validate("stdin\n00000002\t3031313132\n", "3031*0+;32", "0001112");
}
