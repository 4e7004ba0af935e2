use dinero::chars::Tokenizer;
use dinero::date::Date;
use dinero::models::{Account, Currency};
use dinero::money::{Balance, Money};
use dinero::period::{period_beginning, period_ending, Frequency};
use dinero::rational::Rational;
use std::rc::Rc;

#[test]
fn money_equality_is_symmetric() {
    let eur = Rc::new(Currency::from("EUR"));
    let a = Money::from((eur.clone(), Rational::new(1, 2).unwrap()));
    let b = Money::from((eur.clone(), Rational::new(2, 4).unwrap()));
    let c = Money::from((eur, Rational::new(1, 3).unwrap()));
    assert!(a.eq(&b) && b.eq(&a));
    assert!(!a.eq(&c) && !c.eq(&a));
    assert!(Money::Zero.eq(&Money::new()));
}

#[test]
fn addition_of_amounts_commutes() {
    let a = Rational::new(3, 7).unwrap();
    let b = Rational::new(-5, 14).unwrap();
    let x = a.checked_add(&b).unwrap();
    let y = b.checked_add(&a).unwrap();
    assert_eq!((x.numer(), x.denom()), (1, 14));
    assert_eq!((y.numer(), y.denom()), (1, 14));
}

#[test]
fn negating_twice_gives_back() {
    let usd = Rc::new(Currency::from("USD"));
    let m = Money::from((usd.clone(), Rational::new(-7, 3).unwrap()));
    assert!(m.neg().neg().eq(&m));
    let b = Balance::from(m).add(&Balance::from(Money::from((Rc::new(Currency::from("EUR")), Rational::from_integer(2))))).unwrap();
    let back = b.neg().neg();
    assert!(back.eq(&b));
    assert!(b.sub(&b).unwrap().is_zero());
}

#[test]
fn periods_contain_their_days() {
    let d = Date::from_ymd_opt(2020, 2, 29).unwrap();
    for f in [Frequency::Monthly, Frequency::Quarterly, Frequency::Yearly] {
        let b = period_beginning(d, f);
        let e = period_ending(d, f);
        assert!(b.le(&d) && d.le(&e));
    }
    assert_eq!(period_beginning(d, Frequency::Quarterly), Date::from_ymd_opt(2020, 1, 1).unwrap());
    assert_eq!(period_ending(d, Frequency::Quarterly), Date::from_ymd_opt(2020, 3, 31).unwrap());
}

#[test]
fn lines_count_the_newlines_read() {
    let mut t = Tokenizer::from_content("ab\n\nc\nd");
    let start = t.line_index;
    for _ in 0..5 {
        t.next();
    }
    assert_eq!(t.line_index, start + 2);
    t.next();
    t.next();
    assert_eq!(t.line_index, start + 3);
}

#[test]
fn parents_are_one_level_up() {
    let a = Account::from("Assets:Bank:Checking");
    let p = Account::from(a.parent_name().unwrap().as_str());
    assert_eq!(p.depth() + 1, a.depth());
    assert_eq!(p.parent_name().unwrap(), "Assets");
    assert!(Account::from("Assets").parent_name().is_none());
}


#[test]
fn blank_query_words_change_nothing() {
    let with_blank = vec!["  ".to_string(), "food".to_string(), "".to_string()];
    let without = vec!["food".to_string()];
    assert_eq!(dinero::filter::preprocess_query(&with_blank), dinero::filter::preprocess_query(&without));
}

#[test]
fn only_deeper_accounts_have_parents() {
    let top = dinero::models::Account::from("Assets");
    assert_eq!(top.depth(), 1);
    assert!(top.parent_name().is_none());
    let sub = dinero::models::Account::from("Assets:Bank");
    assert_eq!(sub.depth(), 2);
    assert_eq!(sub.parent_name().unwrap(), "Assets");
}

#[test]
fn padded_query_words_are_the_same() {
    let padded = vec!["  food ".to_string(), "and".to_string(), "@shop".to_string()];
    let plain = vec!["food".to_string(), " and".to_string(), "@shop  ".to_string()];
    assert_eq!(dinero::filter::preprocess_query(&padded), dinero::filter::preprocess_query(&plain));
}

#[test]
fn queries_of_keywords_only_are_empty() {
    let words = vec![" ".to_string(), "and".to_string(), "or".to_string()];
    assert_eq!(dinero::filter::preprocess_query(&words), "()");
    let with_word = vec!["and".to_string(), "food".to_string()];
    assert_ne!(dinero::filter::preprocess_query(&with_word), "()");
}
