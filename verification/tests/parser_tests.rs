use rustegrator::integral::Bound;
use rustegrator::integrator::integrate_spec;
use rustegrator::integrator::linear_extension_count;
use rustegrator::parser::parse;
use num::BigInt;
use num::BigRational;

#[test]
fn test_parse_comments() {
    let comment_ok = "// This is a test\n1";
    let res = parse(comment_ok);
    assert_eq!(res.unwrap().elements.len(), 0);

    let comment_ko = "-- This is not good\n\n1";
    let res = parse(comment_ko);
    assert!(res.is_err());
}

#[test]
fn test_one_integral() {
    let spec = parse("1");
    assert_eq!(spec.unwrap().elements.len(), 0);
}

#[test]
fn test_single_integral() {
    let spec = parse("Int_0^1 1 dx1");
    assert_eq!(spec.unwrap().elements.len(), 1);
    let spec = parse("Int_0^1 1 dx_1");
    assert_eq!(spec.unwrap().elements.len(), 1);
}

#[test]
fn test_complex_integral() {
    let spec = parse("Int_0^1 Int_0^x3 Int_x3^1 Int_x3^1 Int_0^x3 1 dx1 dx5 dx4 dx2 dx3");
    assert_eq!(spec.unwrap().elements.len(), 5);

    let spec =
        parse("Int_0^1 Int_0^x_3 Int_x_3^1 Int_x_3^1 Int_0^x_3 1 dx_1 dx_5 dx_4 dx_2 dx_3");
    assert_eq!(spec.unwrap().elements.len(), 5);

    let spec_ko = parse("Int_0^1 Int_0^x2 Int_x2^1 Int_x2^1 Int_0^x2 1 dx4 dx3 dx1 dx2");
    assert!(spec_ko.is_err());
}

#[test]
fn test_parse_resolves_bounds() {
    let spec = parse("Int_0^1 Int_0^x2 1 dx1 dx2").unwrap();
    // Declarations right to left: x1 takes the innermost header.
    assert_eq!(spec.var_names[0], "x1");
    assert_eq!(spec.var_names[1], "x2");
    assert_eq!(spec.elements[0], (0, Bound::Zero, Bound::Var(1)));
    assert_eq!(spec.elements[1], (1, Bound::Zero, Bound::One));
}

#[test]
fn test_parse_unknown_bound_variable() {
    let res = parse("Int_0^y9 1 dx1");
    assert!(res.is_err());
}

#[test]
fn test_parsed_integral_evaluates() {
    // A two-element chain: Int_0^1 Int_0^x2 1 dx1 dx2 has volume 1/2.
    let spec = parse("Int_0^1 Int_0^x2 1 dx1 dx2").unwrap();
    let res = integrate_spec(&spec, usize::MAX).unwrap();
    assert_eq!(res, BigRational::new(BigInt::from(1), BigInt::from(2)));
    let le = linear_extension_count(&spec, usize::MAX).unwrap();
    assert_eq!(le, BigRational::from_integer(BigInt::from(1)));
}
