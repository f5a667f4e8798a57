use algo_exercises::anagram::{are_anagrams, letters_match};

#[test]
fn test_anagram_1() {
    let s1 = "listen".to_string();
    let s2 = "silent".to_string();
    let result = are_anagrams(s1, s2);
    println!("Are anagrams: {}", result);
    assert_eq!(result, true);
}

#[test]
fn test_anagram_2() {
    let s1 = "evil".to_string();
    let s2 = "vile".to_string();
    let result = are_anagrams(s1, s2);
    println!("Are anagrams: {}", result);
    assert_eq!(result, true);
}

#[test]
fn test_anagram_3() {
    let s1 = "hello".to_string();
    let s2 = "world".to_string();
    let result = are_anagrams(s1, s2);
    println!("Are anagrams: {}", result);
    assert_eq!(result, false);
}

#[test]
fn test_anagram_4() {
    let s1 = "Clint Eastwood".to_string();
    let s2 = "Old West Action".to_string();
    let result = are_anagrams(s1, s2);
    println!("Are anagrams: {}", result);
    assert_eq!(result, true);
}

#[test]
fn test_anagram_5() {
    let s1 = "Astronomer".to_string();
    let s2 = "Moon starer".to_string();
    let result = are_anagrams(s1, s2);
    println!("Are anagrams: {}", result);
    assert_eq!(result, true);
}

#[test]
fn anagram_empty_and_punctuation_only() {
    assert!(are_anagrams(String::new(), "!? 12".to_string()));
}

#[test]
fn anagram_counts_repeated_letters() {
    assert!(!are_anagrams("aab".to_string(), "abb".to_string()));
}

#[test]
fn letters_match_is_case_sensitive_without_lowering() {
    assert!(!letters_match("Ab", "ab"));
    assert!(letters_match("b-a", "ab"));
}
