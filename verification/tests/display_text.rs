use spirix::{Circle, Scalar};

fn n(v: i64) -> Scalar {
    Scalar::from_int(v)
}

fn q(a: i64, b: i64) -> Scalar {
    n(a).scalar_divide_scalar(&n(b))
}

fn text(v: Vec<char>) -> String {
    v.into_iter().collect()
}

#[test]
fn scalar_in_bases() {
    let x = n(255);
    assert_eq!(text(x.format_scalar(16, 8)), "+FF");
    assert_eq!(text(x.format_scalar(2, 32)), "+11111111");
    assert_eq!(text(x.format_scalar(10, 4)), "+255");
    let y = q(85, 2);
    assert_eq!(text(y.format_scalar(10, 9)), "+42.5");
    assert_eq!(text(y.format_scalar(16, 8)), "+2A.8");
    assert_eq!(text(y.format_scalar(2, 32)), "+101010.1");
    assert_eq!(text(n(-7).format_scalar(10, 9)), "-7");
    assert_eq!(text(q(-1, 4).format_scalar(10, 9)), "-0.25");
}

#[test]
fn scalar_special_states() {
    assert_eq!(text(Scalar::zero().format_scalar(10, 9)), "0");
    assert_eq!(text(Scalar::infinity().format_scalar(10, 9)), "⦉∞⦊");
    let undefined = Scalar::zero().scalar_divide_scalar(&Scalar::zero());
    assert!(undefined.is_undefined());
    assert!(text(undefined.format_scalar(10, 9)).starts_with('℘'));
}

#[test]
fn scalar_scientific() {
    let big = n(3).scalar_multiply_scalar(&n(1_000_000_000));
    let s = text(big.format_scalar(10, 9));
    assert!(s.starts_with("+3"), "{}", s);
    assert!(s.contains("×A^+9"), "{}", s);
    let small = q(3, 100_000);
    let t = text(small.format_scalar(10, 9));
    assert!(t.starts_with("+2.9") || t.starts_with("+3"), "{}", t);
    assert!(t.contains("×A^-5"), "{}", t);
}

fn c(re: Scalar, im: Scalar) -> Circle {
    Circle::from_ri(&re, &im)
}

#[test]
fn circle_in_bases() {
    let z = c(n(15), n(31));
    assert_eq!(text(z.format_circle(16, 8)), "⦇+F,+1F⦈");
    assert_eq!(text(z.format_circle(2, 32)), "⦇+1111,+11111⦈");
    assert_eq!(text(z.format_circle(10, 3)), "⦇+15,+31⦈");
    let w = c(q(-5, 2), Scalar::zero());
    assert_eq!(text(w.format_circle(10, 9)), "⦇-2.5,0⦈");
}

#[test]
fn circle_special_states() {
    assert_eq!(text(Circle::zero().format_circle(10, 9)), "⦇0⦈");
    assert_eq!(text(Circle::infinity().format_circle(10, 9)), "⦇∞");
    let undefined = Circle::zero().circle_divide_circle(&Circle::zero());
    assert!(undefined.is_undefined());
    assert!(text(undefined.format_circle(10, 9)).starts_with('℘'));
    let exploded = Circle::new(0x4000_0000, 0, 0);
    let t = text(exploded.format_circle(10, 3));
    assert!(t.starts_with("⦇↑+"), "{}", t);
}

#[test]
fn circle_scientific() {
    let z = c(n(3_000_000_000), n(1));
    let t = text(z.format_circle(10, 9));
    assert!(t.starts_with("⦇+3"), "{}", t);
    assert!(t.contains("×A^+9"), "{}", t);
}

#[test]
fn display_requests() {
    let x = n(255);
    assert_eq!(text(x.display_text(None, None)), "+255");
    assert_eq!(text(x.display_text(Some(16), None)), "+FF");
    assert_eq!(text(x.display_text(Some(2), None)), "+11111111");
    assert_eq!(text(x.display_text(Some(10), Some(4))), "+255");
    assert_eq!(text(q(85, 2).display_text(None, None)), "+42.5");
    assert_eq!(text(x.display_text(Some(1), None)), "Error: Only bases 2-36 are supported!");
    assert_eq!(text(x.display_text(Some(37), None)), "Error: Only bases 2-36 are supported!");
    let z = c(n(15), n(31));
    assert_eq!(text(z.display_text(None, None)), "⦇+15,+31⦈");
    assert_eq!(text(z.display_text(Some(16), None)), "⦇+F,+1F⦈");
    assert_eq!(text(z.display_text(Some(40), None)), "Error: Only bases 2-36 are supported!");
}
