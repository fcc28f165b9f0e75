use straps::pd::pdt::swap_axes;

#[test]
fn exchange_of_two_wires() {
    let v: Vec<u32> = (0..8).collect();
    let mut w = v.clone();
    swap_axes(&mut w, 3, 0, 2);
    // index b2 b1 b0 holds what b0 b1 b2 held
    assert_eq!(w, vec![0, 4, 2, 6, 1, 5, 3, 7]);
    swap_axes(&mut w, 3, 2, 0);
    assert_eq!(w, v);
    let mut w = v.clone();
    swap_axes(&mut w, 3, 1, 1);
    assert_eq!(w, v);
    let mut w = v.clone();
    swap_axes(&mut w, 3, 0, 1);
    assert_eq!(w, vec![0, 2, 1, 3, 4, 6, 5, 7]);
    let mut d = vec![0.7, 0.3, 0.0, 0.0];
    swap_axes(&mut d, 2, 0, 1);
    assert_eq!(d, vec![0.7, 0.0, 0.3, 0.0]);
    let mut one = vec![5u8];
    swap_axes(&mut one, 0, 0, 0);
    assert_eq!(one, vec![5]);
}
