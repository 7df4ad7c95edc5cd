use regex_machine::helper::{chars_of, safe_add, SafeAdd};

#[test]
fn test_safe_add() {
    let n = 10;
    assert_eq!(n.safe_add(&20), Some(30));

    let n = !0;
    assert_eq!(n.safe_add(&1), None);

    let mut n = 10;
    assert!(safe_add(&mut n, &20, || ()).is_ok());

    let mut n = !0;
    assert!(safe_add(&mut n, &1, || ()).is_err());
}

#[test]
fn safe_add_stores_the_sum() {
    let mut n: usize = 10;
    assert_eq!(safe_add(&mut n, &20, || "overflow"), Ok(()));
    assert_eq!(n, 30);
}

#[test]
fn safe_add_keeps_the_value_on_overflow() {
    let mut n: usize = usize::MAX - 1;
    assert_eq!(safe_add(&mut n, &2, || "overflow"), Err("overflow"));
    assert_eq!(n, usize::MAX - 1);
    assert_eq!(safe_add(&mut n, &1, || "overflow"), Ok(()));
    assert_eq!(n, usize::MAX);
}

#[test]
fn chars_of_counts_characters() {
    assert_eq!(chars_of(""), Vec::<char>::new());
    assert_eq!(chars_of("aé語"), vec!['a', 'é', '語']);
}

#[test]
fn checked_sum_at_the_boundary() {
    assert_eq!((usize::MAX - 1).safe_add(&1), Some(usize::MAX));
    assert_eq!(usize::MAX.safe_add(&0), Some(usize::MAX));
    assert_eq!(usize::MAX.safe_add(&usize::MAX), None);
}
