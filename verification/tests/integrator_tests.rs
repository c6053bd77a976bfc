use num::BigInt;
use num::BigRational;
use rustegrator::integral::Bound;
use rustegrator::integral::IntegralSpec;
use rustegrator::integrator::antideriv_coef;
use rustegrator::integrator::antideriv_mono;
use rustegrator::integrator::integrate_spec;
use rustegrator::integrator::linear_extension_count;
use rustegrator::integrator::mk_one_mono;
use rustegrator::integrator::mono_pp;
use rustegrator::integrator::mono_subst_const;
use rustegrator::integrator::mono_subst_var;
use rustegrator::integrator::poly_pp;
use rustegrator::integrator::EngineError;
use rustegrator::integrator::Poly;

#[test]
fn test_one_monomial() {
    let one = mk_one_mono(8);
    assert_eq!(mono_pp(&IntegralSpec::new(), &one), "1");
}

#[test]
fn test_one_antideriv() {
    let mut spec = IntegralSpec::new();
    let x1ref = spec.register_var("x1".to_string());
    let _x2ref = spec.register_var("x2".to_string());
    let x3ref = spec.register_var("x3".to_string());

    let one = mk_one_mono(3);
    let anti = antideriv_mono(&one, x1ref);
    assert_eq!(mono_pp(&spec, &anti), "x1");
    let anti2 = antideriv_mono(&anti, x1ref);
    assert_eq!(mono_pp(&spec, &anti2), "x1^2");
    let anti3 = antideriv_mono(&anti2, x3ref);
    assert_eq!(mono_pp(&spec, &anti3), "x1^2 x3");
}

#[test]
fn test_coef_one_antideriv() {
    let mut spec = IntegralSpec::new();
    let x1ref = spec.register_var("x1".to_string());
    let one = mk_one_mono(8);
    let res = antideriv_coef(&BigRational::from_integer(BigInt::from(1)), &one, x1ref);
    assert_eq!(res.to_string(), "1");
}

#[test]
fn test_mono_subst_var() {
    let mono = vec![0, 0, 0, 0, 0, 1, 0, 0, 0, 0];
    let smono = mono_subst_var(&mono, 5, 0);
    assert_eq!(smono, vec![1, 0, 0, 0, 0, 0, 0, 0, 0, 0]);
}

#[test]
fn test_mono_subst_const() {
    let mono = vec![0, 0, 0, 0, 0, 1, 0, 0, 0, 0];
    let smono = mono_subst_const(&mono, 5);
    assert_eq!(smono, vec![0, 0, 0, 0, 0, 0, 0, 0, 0, 0]);
}

#[test]
fn test_integrate() {
    let mut spec = IntegralSpec::new();
    let x0ref = spec.register_var("x0".to_string());
    let x1ref = spec.register_var("x1".to_string());
    let x2ref = spec.register_var("x2".to_string());
    let x3ref = spec.register_var("x3".to_string());
    let x4ref = spec.register_var("x4".to_string());
    let x5ref = spec.register_var("x5".to_string());
    let x6ref = spec.register_var("x6".to_string());
    let x7ref = spec.register_var("x7".to_string());
    let x8ref = spec.register_var("x8".to_string());
    let x9ref = spec.register_var("x9".to_string());

    let p0 = Poly::new(10);
    assert_eq!(poly_pp(&spec, &p0), "1");
    let p1 = p0.integrate(x5ref, &Bound::Var(x0ref), &Bound::One);
    assert_eq!(poly_pp(&spec, &p1), "-x0 + 1");
    let p2 = p1.integrate(x7ref, &Bound::Zero, &Bound::Var(x0ref));
    assert_eq!(poly_pp(&spec, &p2), "-x0^2 + x0");
    let p3 = p2.integrate(x0ref, &Bound::Var(x3ref), &Bound::One);
    assert_eq!(poly_pp(&spec, &p3), "1/3 x3^3 - 1/2 x3^2 + 1/6");
    let p4 = p3.integrate(x3ref, &Bound::Var(x1ref), &Bound::One);
    assert_eq!(poly_pp(&spec, &p4), "-1/12 x1^4 + 1/6 x1^3 - 1/6 x1 + 1/12");
    let p5 = p4.integrate(x4ref, &Bound::Zero, &Bound::Var(x1ref));
    assert_eq!(
        poly_pp(&spec, &p5),
        "-1/12 x1^5 + 1/6 x1^4 - 1/6 x1^2 + 1/12 x1"
    );
    let p6 = p5.integrate(x8ref, &Bound::Var(x1ref), &Bound::One);
    assert_eq!(
        poly_pp(&spec, &p6),
        "1/12 x1^6 - 1/4 x1^5 + 1/6 x1^4 + 1/6 x1^3 - 1/4 x1^2 + 1/12 x1"
    );
    let p7 = p6.integrate(x1ref, &Bound::Var(x2ref), &Bound::One);
    assert_eq!(
        poly_pp(&spec, &p7),
        "-1/84 x2^7 + 1/24 x2^6 - 1/30 x2^5 - 1/24 x2^4 + 1/12 x2^3 - 1/24 x2^2 + 1/280"
    );
    let p8 = p7.integrate(x9ref, &Bound::Zero, &Bound::Var(x2ref));
    assert_eq!(
        poly_pp(&spec, &p8),
        "-1/84 x2^8 + 1/24 x2^7 - 1/30 x2^6 - 1/24 x2^5 + 1/12 x2^4 - 1/24 x2^3 + 1/280 x2"
    );
    let p9 = p8.integrate(x2ref, &Bound::Zero, &Bound::Var(x6ref));
    assert_eq!(poly_pp(&spec, &p9), "-1/756 x6^9 + 1/192 x6^8 - 1/210 x6^7 - 1/144 x6^6 + 1/60 x6^5 - 1/96 x6^4 + 1/560 x6^2");
    let p10 = p9.integrate(x6ref, &Bound::Zero, &Bound::One);
    assert_eq!(poly_pp(&spec, &p10), "1/6720");
    // correct number of linear extensions: #le = 10! / 6720 = 540
}

// The reference fixture through the driver: the same bound sequence as
// test_integrate gives the constant 1/6720 and 10!/6720 = 540 extensions.
#[test]
fn test_reference_fixture_driver() {
    let mut spec = IntegralSpec::new();
    let mut refs = Vec::new();
    for i in 0..10 {
        refs.push(spec.register_var(format!("x{}", i)));
    }
    spec.push(refs[5], Bound::Var(refs[0]), Bound::One);
    spec.push(refs[7], Bound::Zero, Bound::Var(refs[0]));
    spec.push(refs[0], Bound::Var(refs[3]), Bound::One);
    spec.push(refs[3], Bound::Var(refs[1]), Bound::One);
    spec.push(refs[4], Bound::Zero, Bound::Var(refs[1]));
    spec.push(refs[8], Bound::Var(refs[1]), Bound::One);
    spec.push(refs[1], Bound::Var(refs[2]), Bound::One);
    spec.push(refs[9], Bound::Zero, Bound::Var(refs[2]));
    spec.push(refs[2], Bound::Zero, Bound::Var(refs[6]));
    spec.push(refs[6], Bound::Zero, Bound::One);
    let res = integrate_spec(&spec, usize::MAX).unwrap();
    assert_eq!(
        res,
        BigRational::new(BigInt::from(1), BigInt::from(6720))
    );
    let le = linear_extension_count(&spec, usize::MAX).unwrap();
    assert_eq!(le, BigRational::from_integer(BigInt::from(540)));
}

// Canonical form: a step whose bounds coincide cancels every contribution,
// and the result keeps no zero-coefficient monomial.
#[test]
fn test_integrate_prunes_zero_coefficients() {
    let p = Poly::new(2);
    let cancelled = p.integrate(0, &Bound::Var(1), &Bound::Var(1));
    assert_eq!(cancelled.number_of_monos(), 0);
    for (_, coef) in cancelled.monos.iter() {
        assert!(!num::Zero::is_zero(coef));
    }
    let q = Poly::new(2).integrate(0, &Bound::Zero, &Bound::Var(1));
    assert_eq!(q.number_of_monos(), 1);
    for (_, coef) in q.monos.iter() {
        assert!(!num::Zero::is_zero(coef));
    }
}

#[test]
fn test_as_constant_shapes() {
    let p = Poly::new(3);
    assert_eq!(
        p.as_constant(),
        Some(BigRational::from_integer(BigInt::from(1)))
    );
    let stuck = Poly::new(3).integrate(0, &Bound::Var(1), &Bound::One);
    assert_eq!(stuck.as_constant(), None);
    assert!(!stuck.is_constant());
    assert!(Poly::new(3).is_constant());
}

#[test]
fn test_invalid_spec_rejected() {
    // The bound references the step's own variable: no later step
    // integrates it.
    let mut spec = IntegralSpec::new();
    spec.register_var("x0".to_string());
    spec.push(0, Bound::Zero, Bound::Var(0));
    assert!(matches!(
        integrate_spec(&spec, usize::MAX),
        Err(EngineError::InvalidSpec)
    ));
    // A bound referencing an earlier step is just as invalid.
    let mut spec2 = IntegralSpec::new();
    spec2.register_var("x0".to_string());
    spec2.register_var("x1".to_string());
    spec2.push(0, Bound::Zero, Bound::One);
    spec2.push(1, Bound::Var(0), Bound::One);
    assert!(matches!(
        integrate_spec(&spec2, usize::MAX),
        Err(EngineError::InvalidSpec)
    ));
}

#[test]
fn test_resource_limit_reported() {
    let mut spec = IntegralSpec::new();
    spec.register_var("x0".to_string());
    spec.push(0, Bound::Zero, Bound::One);
    assert!(matches!(
        integrate_spec(&spec, 0),
        Err(EngineError::ResourceExceeded)
    ));
}

#[test]
fn test_number_of_distinct_coefs() {
    let mut spec = IntegralSpec::new();
    let x0 = spec.register_var("x0".to_string());
    let _x1 = spec.register_var("x1".to_string());
    let p = Poly::new(2).integrate(x0, &Bound::Var(1), &Bound::One);
    // -x1 + 1: two monomials, two distinct coefficient values.
    assert_eq!(p.number_of_monos(), 2);
    assert_eq!(p.number_of_distinct_coefs(), 2);
}
