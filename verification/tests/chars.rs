use wordlehelper::analyze::util::chars_count;
use wordlehelper::analyze::util::uniq_chars;
use wordlehelper::analyze::util::CharsCount;

#[test]
fn uniq_chars_empty() {
    let set = uniq_chars("");

    assert!(!set.contains('a'));
    assert!(!set.contains('A'));

    let mut iter = set.into_iter();
    assert_eq!(None, iter.next());
}

#[test]
fn uniq_chars_some() {
    let set = uniq_chars("ACZ");
    assert!(set.contains('a'));
    assert!(set.contains('A'));
    assert!(set.contains('Z'));

    let mut iter = set.into_iter();

    assert_eq!(Some('A'), iter.next());
    assert_eq!(Some('C'), iter.next());
    assert_eq!(Some('Z'), iter.next());
    assert_eq!(None, iter.next());
}

#[test]
fn uniq_chars_skips_what_is_no_letter() {
    let set = uniq_chars("b-2 B\u{e9}");
    assert!(set.contains('b'));
    assert!(!set.contains('-'));
    assert!(!set.contains('2'));
    assert!(!set.contains('\u{e9}'));
    let mut iter = set.into_iter();
    assert_eq!(Some('B'), iter.next());
    assert_eq!(None, iter.next());
}

#[test]
fn chars_count_folds_case() {
    let counts = chars_count("Llama");
    assert_eq!(2, counts.get('l'));
    assert_eq!(2, counts.get('L'));
    assert_eq!(2, counts.get('a'));
    assert_eq!(1, counts.get('M'));
    assert_eq!(0, counts.get('z'));
    assert_eq!(0, counts.get('!'));
}

#[test]
fn increment_and_decrement() {
    let mut counts = CharsCount::new();
    counts.increment('q');
    counts.increment('Q');
    counts.increment('?');
    assert_eq!(2, counts.get('q'));
    counts.decrement('q');
    assert_eq!(1, counts.get('Q'));
    counts.decrement('Q');
    assert_eq!(0, counts.get('q'));
    counts.decrement('q');
    assert_eq!(0, counts.get('q'));
}

#[test]
fn get_mut_hands_out_the_counter() {
    let mut counts = CharsCount::new();
    assert!(counts.get_mut('1').is_none());
    if let Some(count) = counts.get_mut('k') {
        *count = 7;
    }
    assert_eq!(7, counts.get('K'));
    assert_eq!(0, counts.get('j'));
}

#[test]
fn reset_all_zeroes_every_counter() {
    let mut counts = chars_count("ABCXYZ");
    counts.reset_all();
    for ch in ['A', 'B', 'C', 'X', 'Y', 'Z'] {
        assert_eq!(0, counts.get(ch));
    }
}

#[test]
fn counters_start_at_zero_and_compare() {
    let zero = CharsCount::default();
    assert_eq!(CharsCount::new(), zero);
    for ch in ['a', 'M', 'z', '?'] {
        assert_eq!(0, zero.get(ch));
    }
    let mut one = CharsCount::default();
    one.increment('m');
    assert_ne!(zero, one);
    assert_eq!(chars_count("M"), one);
    one.decrement('M');
    assert_eq!(zero, one);
}
