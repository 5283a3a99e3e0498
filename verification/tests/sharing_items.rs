use std::rc::Rc;
use std::sync::Arc;

use calc24::sharing::{arced, boxed, raw, rced, Item};

#[test]
fn test_ptr() {
    let x = Item { a: 1, b: 2, s: [128; 1024] };
    let y = raw(&x);
    // a plain copy has its own payload
    println!("raw:   x.s: {:p} | y.s: {:p}", &x.s, &y.s);
    println!("raw:     x: {:p} |   y: {:p}", &x, &y);
    assert_eq!(y.a, 1);
    assert_eq!(y.b, 2);
    assert_eq!(y.s[0], 128);

    let x = Box::new(x);
    let y = boxed(&x);
    // a boxed clone also has its own payload
    println!("boxed: x.s: {:p} | y.s: {:p}", &x.s, &y.s);
    println!("boxed:   x: {:p} |   y: {:p}", &x, &y);
    assert_eq!(y.a, 1);
    assert_eq!(y.s[1023], 128);
}

#[test]
fn reference_counted_clones_share_the_record() {
    let x = Rc::new(Item { a: 3, b: 4, s: [7; 1024] });
    let y = rced(&x);
    assert!(std::ptr::eq(x.as_ref(), y.as_ref()));
    assert_eq!(y.b, 4);

    let x = Arc::new(Item { a: 5, b: 6, s: [9; 1024] });
    let y = arced(&x);
    assert!(std::ptr::eq(x.as_ref(), y.as_ref()));
    assert_eq!(y.s[512], 9);
}
