use tools::utils::nondet::NonDet;

#[test]
fn test_singleton() {
    let nd = NonDet::singleton(42);
    assert_eq!(nd.0, vec![42]);
}

#[test]
fn test_new() {
    let nd = NonDet::new(vec![1, 2, 3]);
    assert_eq!(nd.0, vec![1, 2, 3]);
}

#[test]
fn test_and_then() {
    let f = |x| NonDet::new(vec![x].repeat(x));
    let nd = NonDet::new(vec![1, 2, 3]).and_then(f);
    assert_eq!(nd.0, vec![1, 2, 2, 3, 3, 3]);
}

#[test]
fn and_then_on_nothing_gives_nothing() {
    let nd = NonDet::new(Vec::<usize>::new()).and_then(|x| NonDet::singleton(x + 1));
    assert_eq!(nd.0, Vec::<usize>::new());
}

#[test]
fn and_then_keeps_the_order_of_the_results() {
    let nd = NonDet::new(vec![10, 20]).and_then(|x| NonDet::new(vec![x, x + 1]));
    assert_eq!(nd.0, vec![10, 11, 20, 21]);
}

#[test]
fn and_then_drops_results_without_continuation() {
    let nd = NonDet::new(vec![1, 2, 3, 4]).and_then(|x| {
        if x % 2 == 0 {
            NonDet::singleton(x)
        } else {
            NonDet::new(vec![])
        }
    });
    assert_eq!(nd.0, vec![2, 4]);
}
