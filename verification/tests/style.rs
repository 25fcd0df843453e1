//! Polishing English.

use fastrans::style::{polish, replace_word};

#[test]
fn contracts_and_destiffens() {
    assert_eq!(polish("I am on it. We will do it."), "I'm on it. We'll do it.");
    assert_eq!(
        polish("We cannot make it, it is too late."),
        "We can't make it, it's too late."
    );
    assert_eq!(
        polish("Please reply as soon as possible."),
        "Please reply ASAP."
    );
    assert_eq!(
        polish("In order to finish, I will need help."),
        "To finish, I'll need help."
    );
    // Word boundaries: no mid-word or double-contraction damage.
    assert_eq!(polish("Miami is not Miami's"), "Miami isn't Miami's");
    assert_eq!(polish("It's fine"), "It's fine");
    assert_eq!(polish("This  has  extra  spaces ."), "This has extra spaces.");
}

#[test]
fn phrases_go_first() {
    assert_eq!(polish("I have been there"), "I've been there");
    assert_eq!(polish("It is a pity that you left"), "Too bad you left");
    assert_eq!(polish("She has not come, has she"), "She hasn't come, has she");
}

#[test]
fn replaces_whole_words_only() {
    assert_eq!(replace_word("do not do nothing", "do not", "don't"), "don't do nothing");
    assert_eq!(replace_word("undo not", "do not", "don't"), "undo not");
    assert_eq!(replace_word("do not's", "do not", "don't"), "do not's");
    assert_eq!(replace_word("do notdo not", "do not", "don't"), "do notdo not");
    assert_eq!(replace_word("do not,do not", "do not", "don't"), "don't,don't");
    // Letters of any alphabet make words.
    assert_eq!(replace_word("édo not", "do not", "don't"), "édo not");
    assert_eq!(replace_word("好do not", "do not", "don't"), "好do not");
    assert_eq!(replace_word("、do not", "do not", "don't"), "、don't");
    assert_eq!(replace_word("do not", "x", "y"), "do not");
    assert_eq!(replace_word("a do not b do not's", "do not", "do not"), "a do not b do not's");
    assert_eq!(polish("Hello there"), "Hello there");
}

#[test]
fn cleans_up_spaces() {
    assert_eq!(polish("  a   b  "), "a b");
    assert_eq!(polish("a , b ? c ! d ."), "a, b? c! d.");
    assert_eq!(polish("a . , b"), "a., b");
    assert_eq!(polish(""), "");
    assert_eq!(polish(" \n\t "), "");
    assert_eq!(polish("a\u{3000}"), "a");
}
