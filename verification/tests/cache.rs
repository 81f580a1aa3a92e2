use hutils::FnCacher;
use std::cell::Cell;

#[test]
fn fn_cacher_i32() {
    let mut cacher = FnCacher::new(|&x| x);
    let cases = vec![(1, 1), (2, 2), (3, 3)];
    cases.iter().for_each(|case| assert_eq!(&case.1, cacher.call(&case.0)));

    let mut cacher = FnCacher::new(|x| x * x);
    let cases = vec![(1, 1), (2, 4), (3, 9)];
    cases.iter().for_each(|case| assert_eq!(&case.1, cacher.call(&case.0)));
}

#[test]
fn fn_cacher_string() {
    let mut cacher = FnCacher::new(|x: &String| x.clone());
    let cases = vec![
        ("a".to_string(), "a".to_string()),
        ("b".to_string(), "b".to_string()),
        ("c".to_string(), "c".to_string()),
    ];
    cases.iter().for_each(|case| assert_eq!(&case.1, cacher.call(&case.0)));

    let mut cacher = FnCacher::new(|x: &String| x.len());
    let cases = vec![
        ("a".to_string(), 1),
        ("bb".to_string(), 2),
        ("ccc".to_string(), 3),
    ];
    cases.iter().for_each(|case| assert_eq!(&case.1, cacher.call(&case.0)));
}

// Repeating a call with an equal argument returns the same value as the
// first call and never invokes the function again.
#[test]
fn repeated_calls_invoke_once() {
    let invocations = Cell::new(0u32);
    let f = |x: &i32| {
        invocations.set(invocations.get() + 1);
        x * 10
    };
    let mut cacher = FnCacher::new(f);
    assert_eq!(&70, cacher.call(&7));
    assert_eq!(&70, cacher.call(&7));
    assert_eq!(&70, cacher.call(&7));
    assert_eq!(&70, cacher.call(&7));
    assert_eq!(1, invocations.get());
}

// Caching the result for one argument does not affect the result
// returned for a different argument.
#[test]
fn distinct_keys_isolated() {
    let mut cacher = FnCacher::new(|x: &i32| x + 1);
    assert_eq!(&6, cacher.call(&5));
    assert_eq!(&9, cacher.call(&8));
    assert_eq!(&6, cacher.call(&5));
    assert_eq!(&9, cacher.call(&8));
}

// However many calls are made, the function runs once per distinct
// argument value, so the cache grows only with the distinct values.
#[test]
fn growth_bounded_by_distinct_keys() {
    let invocations = Cell::new(0u32);
    let f = |x: &i32| {
        invocations.set(invocations.get() + 1);
        x * x
    };
    let mut cacher = FnCacher::new(f);
    for _round in 0..4 {
        assert_eq!(&4, cacher.call(&2));
        assert_eq!(&9, cacher.call(&3));
        assert_eq!(&25, cacher.call(&5));
    }
    assert_eq!(3, invocations.get());
}

// Two distinct String instances that compare equal share one cache
// entry: the second call hits the cache without a new invocation.
#[test]
fn equal_instances_share_entry() {
    let invocations = Cell::new(0u32);
    let f = |s: &String| {
        invocations.set(invocations.get() + 1);
        s.len()
    };
    let mut cacher = FnCacher::new(f);
    let first = String::from("aa");
    let second = String::from("aa");
    assert_eq!(&2, cacher.call(&first));
    assert_eq!(&2, cacher.call(&second));
    assert_eq!(1, invocations.get());
}

// Identity on text: each input is computed once, and repeating a call
// with the first input again returns it with no further invocation.
#[test]
fn identity_on_text_repeat() {
    let invocations = Cell::new(0u32);
    let f = |s: &String| {
        invocations.set(invocations.get() + 1);
        s.clone()
    };
    let mut cacher = FnCacher::new(f);
    let a = String::from("a");
    let b = String::from("b");
    let c = String::from("c");
    assert_eq!(&a.clone(), cacher.call(&a));
    assert_eq!(&b.clone(), cacher.call(&b));
    assert_eq!(&c.clone(), cacher.call(&c));
    assert_eq!(3, invocations.get());
    assert_eq!(&a.clone(), cacher.call(&a));
    assert_eq!(3, invocations.get());
}
