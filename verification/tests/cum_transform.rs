use straps::pd::cum_transform::{
    cum_transform, cum_transform_inv, cum_transform_inv_min_positive,
    cum_transform_inv_min_rec_positive, cum_transform_inv_positive,
    cum_transform_inv_rec, cum_transform_inv_rec_positive, cum_transform_naive,
    cum_transform_rec,
};

#[test]
fn test_rec_transform_small() {
    let v = vec![0, 1, 2, 3];
    let vt = vec![6, 4, 5, 3];
    let mut w = v.clone();
    cum_transform_rec(&mut w);
    assert_eq!(w, vt);
    let mut w = v.clone();
    cum_transform_naive(&mut w);
    assert_eq!(w, vt);
    let mut w = vt.clone();
    cum_transform_inv_rec(&mut w);
    assert_eq!(v, w);
    let mut w = vt.clone();
    cum_transform_inv_rec_positive(&mut w);
    assert_eq!(v, w);
    let mut w = vt.clone();
    cum_transform_inv_positive(&mut w);
    assert_eq!(v, w);
    let mut wt = vt.clone();
    cum_transform_inv_min_rec_positive(&mut wt);
    assert!(
        wt.iter().zip(v.iter()).all(|(w, v)| *w <= *v),
        "w: {:?}, v: {:?}",
        wt,
        v
    );
    let mut w = vt.clone();
    cum_transform_inv_min_positive(&mut w);
    assert_eq!(wt, w);
    let mut w = v.clone();
    cum_transform(&mut w);
    assert_eq!(w, vt);
    let mut w = vt.clone();
    cum_transform_inv(&mut w);
    assert_eq!(v, w);
}

#[test]
fn test_rec_transform_big() {
    let v = (0..(1 << 10)).collect::<Vec<_>>();
    let mut vt = v.clone();
    cum_transform_rec(&mut vt);
    let mut w = v.clone();
    cum_transform_naive(&mut w);
    assert_eq!(vt, w);
    let mut w = vt.clone();
    cum_transform_inv_rec(&mut w);
    assert_eq!(v, w);
    let mut w = vt.clone();
    cum_transform_inv_rec_positive(&mut w);
    assert_eq!(v, w);
    let mut w = vt.clone();
    cum_transform_inv_positive(&mut w);
    assert_eq!(v, w);
    let mut wt = vt.clone();
    cum_transform_inv_min_rec_positive(&mut wt);
    assert!(wt.iter().zip(v.iter()).all(|(w, v)| *w <= *v));
    let mut w = vt.clone();
    cum_transform_inv_min_positive(&mut w);
    assert_eq!(wt, w);
    let mut w = v.clone();
    cum_transform(&mut w);
    assert_eq!(vt, w);
    let mut w = vt.clone();
    cum_transform_inv(&mut w);
    assert_eq!(v, w);
}

#[test]
fn test_rec_transform_positive() {
    let v = vec![1, -1, -1, 1, 1, -1, -1, 1];
    let vp = vec![0, 0, 0, 1, 0, 0, 0, 1];
    let mut vt = v.clone();
    cum_transform_rec(&mut vt);
    let mut w = v.clone();
    cum_transform(&mut w);
    assert_eq!(vt, w);
    let mut w = v.clone();
    cum_transform_naive(&mut w);
    assert_eq!(vt, w);
    let mut w = vt.clone();
    cum_transform_inv_rec_positive(&mut w);
    assert_eq!(vp, w);
    let mut w = vt.clone();
    cum_transform_inv_positive(&mut w);
    assert_eq!(vp, w);
}

#[test]
fn transform_of_one_element_is_itself() {
    let mut w: Vec<i64> = vec![-7];
    cum_transform(&mut w);
    assert_eq!(w, vec![-7]);
    cum_transform_inv(&mut w);
    assert_eq!(w, vec![-7]);
    cum_transform_rec(&mut w);
    assert_eq!(w, vec![-7]);
}

#[test]
fn first_element_of_the_transform_is_the_total() {
    let v: Vec<i64> = vec![3, -1, 4, 1, -5, 9, 2, -6];
    let mut w = v.clone();
    cum_transform(&mut w);
    assert_eq!(w[0], v.iter().sum::<i64>());
    assert_eq!(w[7], -6);
    assert_eq!(w[5], 9 - 6);
    assert_eq!(w[2], 4 + 1 + 2 - 6);
}

#[test]
fn inverse_undoes_the_transform_on_counts() {
    let v: Vec<u64> = vec![5, 0, 2, 7, 1, 1, 0, 3];
    let mut w = v.clone();
    cum_transform(&mut w);
    assert_eq!(w, vec![19, 11, 12, 10, 5, 4, 3, 3]);
    let mut s: Vec<i64> = w.iter().map(|x| *x as i64).collect();
    cum_transform_inv(&mut s);
    assert_eq!(s, vec![5, 0, 2, 7, 1, 1, 0, 3]);
}

#[test]
fn positive_inverse_covers_its_argument() {
    let y: Vec<i64> = vec![5, 1];
    let mut z = y.clone();
    cum_transform_inv_positive(&mut z);
    assert_eq!(z, vec![4, 1]);
    let y: Vec<i64> = vec![0, 3, 3, 0];
    let mut z = y.clone();
    cum_transform_inv_positive(&mut z);
    assert_eq!(z, vec![0, 3, 3, 0]);
    let mut t = z.clone();
    cum_transform(&mut t);
    assert!(t.iter().zip(y.iter()).all(|(t, y)| t >= y));
}

#[test]
fn min_positive_inverse_stays_below_its_argument() {
    let y: Vec<i64> = vec![6, 4, 5, 9];
    let mut z = y.clone();
    cum_transform_inv_min_positive(&mut z);
    assert_eq!(z, vec![1, 0, 1, 4]);
    let mut t = z.clone();
    cum_transform(&mut t);
    assert_eq!(t, vec![6, 4, 5, 4]);
    let mut r = y.clone();
    cum_transform_inv_min_rec_positive(&mut r);
    assert_eq!(r, z);
}

#[test]
fn positive_inverse_has_no_negative_element() {
    let mut z: Vec<i64> = vec![-3];
    cum_transform_inv_positive(&mut z);
    assert_eq!(z, vec![0]);
    let y: Vec<i64> = vec![1, -2];
    let mut z = y.clone();
    cum_transform_inv_positive(&mut z);
    assert_eq!(z, vec![1, 0]);
    let mut r = y.clone();
    cum_transform_inv_rec_positive(&mut r);
    assert_eq!(r, z);
    let y: Vec<i32> = vec![-1, 4, -6, -2];
    let mut z = y.clone();
    cum_transform_inv_positive(&mut z);
    assert_eq!(z, vec![0, 4, 0, 0]);
    let mut t = z.clone();
    cum_transform(&mut t);
    assert_eq!(t, vec![4, 4, 0, 0]);
}
