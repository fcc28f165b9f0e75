use straps::circuit::poly::{Monomial, MonomialOrder, Polynomial};

#[test]
fn test_anf() {
    let one = Polynomial::one();
    let v1 = Polynomial::from_var(1);
    let v2 = Polynomial::from_var(2);
    let v3 = Polynomial::from_var(3);
    let v4 = Polynomial::from_var(4);
    assert_ne!(one, Polynomial::zero());
    assert_eq!(&one, &one);
    assert_eq!(one.add(&one), Polynomial::zero());
    assert_eq!(&v1, &v1);
    assert_eq!(v1.add(&v2), v2.add(&v1));
    assert_eq!(v3.mul(&v1.add(&v2)), v2.add(&v1).mul(&v3));
    assert_eq!(v1.mul(&v1.add(&v2)), v2.add(&v1).mul(&v1));
    let v1_v1v2 = v4.mul(&v1).add(&v1.mul(&v4.add(&v1).add(&v2)));
    assert_eq!(v1_v1v2, v2.add(&v1).mul(&v1));
    assert_ne!(v3.mul(&v1.add(&v2)), v2.add(&v1).mul(&v1));
    assert_eq!(
        v1_v1v2.first_order_monomials(),
        vec![Monomial::from_var(1)]
    );
    assert_eq!(
        v1_v1v2.add(&one).add(&v3).primitive_monomials(),
        vec![Monomial::from_var(3)]
    );
    assert_eq!(
        v1_v1v2.add(&v4).primitive_monomials(),
        vec![Monomial::from_var(4)]
    );
    assert_eq!(
        v1_v1v2.product_terms(),
        Monomial::from_var(1).mul(&Monomial::from_var(2))
    );
    assert_eq!(
        one.add(&v3).mul(&v1.mul(&v2).add(&v3)),
        v1.mul(&v2).add(&v1.mul(&v2).mul(&v3))
    );
}

#[test]
fn primitive_monomials_of_a_sum_with_a_product() {
    let v1 = Polynomial::from_var(1);
    let v2 = Polynomial::from_var(2);
    // x1 + x1*x2
    let p = v1.add(&v1.mul(&v2));
    assert_eq!(p.primitive_monomials(), Vec::<Monomial>::new());
    assert_eq!(p.variables(), vec![1, 2]);
    assert_eq!(p.terms().len(), 2);
    assert_eq!(p.terms()[0].variables(), vec![1, 2]);
    assert_eq!(p.terms()[1].variables(), vec![1]);
}

#[test]
fn monomials_are_ordered_by_degree_then_by_highest_variable() {
    let one = Monomial::one();
    let x1 = Monomial::from_var(1);
    let x2 = Monomial::from_var(2);
    let x70 = Monomial::from_var(70);
    let x1x2 = x1.mul(&x2);
    let x1x70 = x1.mul(&x70);
    assert_eq!(one.compare(&x1), MonomialOrder::Less);
    assert_eq!(x1.compare(&x2), MonomialOrder::Less);
    assert_eq!(x2.compare(&x1), MonomialOrder::Greater);
    assert_eq!(x70.compare(&x1x2), MonomialOrder::Less);
    assert_eq!(x1x2.compare(&x1x70), MonomialOrder::Less);
    assert_eq!(x1x70.compare(&x1x70.clone()), MonomialOrder::Equal);
    assert_eq!(x1x2.degree(), 2);
    assert_eq!(one.degree(), 0);
    assert!(x1.divides(&x1x2));
    assert!(!x1x2.divides(&x1));
    assert!(one.divides(&one));
    assert!(x1x2.equals(&x2.mul(&x1)));
}

#[test]
fn a_polynomial_plus_itself_is_zero() {
    let v1 = Polynomial::from_var(1);
    let v9 = Polynomial::from_var(9);
    let p = v1.mul(&v9).add(&v1).add(&Polynomial::one());
    assert_eq!(p.add(&p), Polynomial::zero());
    assert_eq!(p.not().not(), p);
    assert_eq!(p.clone(), p);
}

#[test]
fn the_product_distributes_over_the_sum() {
    let v: Vec<Polynomial> = (0..5).map(Polynomial::from_var).collect();
    let p = v[0].add(&v[1].mul(&v[2])).add(&Polynomial::one());
    let q = v[1].add(&v[3]).add(&v[0].mul(&v[4]));
    let r = v[3].add(&v[2].mul(&v[4])).add(&v[0]);
    assert_eq!(p.mul(&q.add(&r)), p.mul(&q).add(&p.mul(&r)));
    assert_eq!(p.mul(&q), q.mul(&p));
    assert_eq!(p.add(&q), q.add(&p));
}

#[test]
fn from_mon_vec_cancels_pairs() {
    let x1 = Monomial::from_var(1);
    let x2 = Monomial::from_var(2);
    let one = Monomial::one();
    let p = Polynomial::from_mon_vec(vec![
        x1.clone(),
        x2.clone(),
        one.clone(),
        x1.clone(),
        x2.clone(),
        x2.clone(),
    ]);
    assert_eq!(p, Polynomial::from_var(2).add(&Polynomial::one()));
    assert_eq!(
        Polynomial::from_mon_vec(vec![x1.clone(), x1.clone()]),
        Polynomial::zero()
    );
}

#[test]
fn adding_a_monomial_toggles_it() {
    let x1 = Monomial::from_var(1);
    let x2 = Monomial::from_var(2);
    let mut p = Polynomial::from_var(1);
    p.add_monomial(x2.clone());
    assert_eq!(p, Polynomial::from_var(1).add(&Polynomial::from_var(2)));
    p.add_monomial(x1.clone());
    assert_eq!(p, Polynomial::from_var(2));
    p.add_monomial(x1.mul(&x2));
    assert_eq!(p.terms().len(), 2);
    assert_eq!(p.terms()[0].variables(), vec![1, 2]);
    let q = p.clone();
    p.add_assign(&q);
    assert_eq!(p, Polynomial::zero());
}

#[test]
fn variables_of_a_list_of_polynomials() {
    use_poly_list_vars();
}

fn use_poly_list_vars() {
    let p = Polynomial::from_var(3).mul(&Polynomial::from_var(70));
    let q = Polynomial::from_var(1).add(&Polynomial::one());
    let vars = straps::circuit::poly::poly_list_vars(&[p, q, Polynomial::zero()]);
    assert_eq!(vars.iter().collect::<Vec<_>>(), vec![1, 3, 70]);
    assert!(straps::circuit::poly::poly_list_vars(&[]).is_empty());
}
