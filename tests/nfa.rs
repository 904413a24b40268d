use thegrep::nfa::NFA;

#[test]
fn simple_gen_test() {
    let nfa = NFA::from(&"ab").unwrap();
    let nfa_gen = nfa.gen(usize::MAX).unwrap();
    assert!(NFA::from(&"ab").unwrap().accepts(&nfa_gen));
}

#[test]
fn simple_gen_any_char() {
    let nfa = NFA::from(&"a..b").unwrap();
    let nfa_gen = nfa.gen(usize::MAX).unwrap();
    assert!(NFA::from(&"a..b").unwrap().accepts(&nfa_gen));
}

#[test]
fn simple_alternation_gen() {
    let nfa = NFA::from(&"a|b|c").unwrap();
    let nfa_gen = nfa.gen(usize::MAX).unwrap();
    assert!(NFA::from(&"a|b|c").unwrap().accepts(&nfa_gen));
}

#[test]
fn simple_kleene_gen() {
    let nfa = NFA::from(&"a*").unwrap();
    let nfa_gen = nfa.gen(usize::MAX).unwrap();
    assert!(NFA::from(&"a*").unwrap().accepts(&nfa_gen));
}

#[test]
fn kleene_plus_gen() {
    let nfa = NFA::from(&"a*b+c*d+").unwrap();
    let nfa_gen = nfa.gen(usize::MAX).unwrap();
    assert!(NFA::from(&"a*b+c*d+").unwrap().accepts(&nfa_gen));
}

#[test]
fn kleene_plus_with_alternation_gen() {
    let nfa = NFA::from(&"(ab+)|i(cd)+").unwrap();
    let nfa_gen = nfa.gen(usize::MAX).unwrap();
    assert!(NFA::from(&"(ab+)|i(cd)+").unwrap().accepts(&nfa_gen));
}

#[test]
fn kleene_star_gen() {
    let nfa = NFA::from(&"abcccc*dd*a*a").unwrap();
    let nfa_gen = nfa.gen(usize::MAX).unwrap();
    assert!(NFA::from(&"abcccc*dd*a*a").unwrap().accepts(&nfa_gen));
}

#[test]
fn generate_random_regex() {
    let nfa = NFA::from(&"a*(a|b)+|(c|d)*d").unwrap();
    let nfa_gen = nfa.gen(usize::MAX).unwrap();
    assert!(NFA::from(&"a*(a|b)+|(c|d)*d").unwrap().accepts(&nfa_gen));
}

#[test]
fn simple_addition_overload() {
    let ab = NFA::from(&"ab").unwrap();
    let cd = NFA::from(&"cd").unwrap();
    let abcd = ab + cd;
    assert!(abcd.accepts("abcd"));
    assert!(!abcd.accepts("abcde"));
}

#[test]
fn kleene_addition_overload() {
    let a_star = NFA::from(&"a*").unwrap();
    let c_star = NFA::from(&"c*").unwrap();
    let ac = a_star + c_star;
    assert!(ac.accepts("a"));
    assert!(ac.accepts("c"));
    assert!(ac.accepts("ac"));
    assert!(ac.accepts("aaccc"));
}

#[test]
fn alternation_addition_overload() {
    let ab = NFA::from(&"ab").unwrap();
    let cd = NFA::from(&"c|d").unwrap();
    let ab_c_or_d = ab + cd;
    assert!(ab_c_or_d.accepts("abc"));
    assert!(ab_c_or_d.accepts("abd"));
}

#[test]
fn kleene_alternation_overload() {
    let ab_alt_star = NFA::from(&"(a|b)*").unwrap();
    let cd_alt_star = NFA::from(&"(c|d)*").unwrap();
    let ab_c_or_d = ab_alt_star + cd_alt_star;
    assert!(ab_c_or_d.accepts(""));
    assert!(ab_c_or_d.accepts("abd"));
    assert!(ab_c_or_d.accepts("abbbbbba"));
    assert!(ab_c_or_d.accepts("ccccddd"));
    assert!(ab_c_or_d.accepts("d"));
}

#[test]
fn alternation_overload() {
    let abc = NFA::from(&"a|b|c").unwrap();
    let cd = NFA::from(&"c|d").unwrap();
    let ors = abc + cd;
    assert!(ors.accepts("ac"));
    assert!(ors.accepts("ad"));
    assert!(ors.accepts("bc"));
    assert!(ors.accepts("bd"));
    assert!(ors.accepts("cc"));
    assert!(ors.accepts("cd"));
}

#[test]
fn kleene_overload_panic() {
    let abcd = NFA::from(&"abcd").unwrap();
    let ba_star = NFA::from(&"ba+").unwrap();
    let abcd_ba_star = abcd + ba_star;
    assert!(!abcd_ba_star.accepts("abcda"));
    assert!(!abcd_ba_star.accepts("abcdb"));
}

#[test]
fn alternation_overload_just_for_fun() {
    let alternate_lhs = NFA::from(&"a|b|(c|d)*(e|f|g)+").unwrap();
    let alternate_rhs = NFA::from(&"((h|i)*j+)((k|l|m)|n)").unwrap();
    let alternate_overload = alternate_lhs + alternate_rhs;
    assert!(alternate_overload.accepts("ejk"));
    assert!(alternate_overload.accepts("ejn"));
    assert!(alternate_overload.accepts("ahhhhjl"));
    assert!(alternate_overload.accepts("bhhhhjjm"));
}

#[test]
fn alternation_right_hand_side() {
    let abc = NFA::from(&"abc*").unwrap();
    let c_or_d = NFA::from(&"c|d").unwrap();
    let abc_c_or_d = abc + c_or_d;
    assert!(abc_c_or_d.accepts("abc"));
    assert!(abc_c_or_d.accepts("abccccd"));
    assert!(abc_c_or_d.accepts("abd"));
    assert!(abc_c_or_d.accepts("abcc"));
}

#[test]
fn kleene_plus_overload() {
    let ab = NFA::from(&"ab+").unwrap();
    let d = NFA::from(&"d+").unwrap();
    let abd = ab + d;
    assert!(abd.accepts("abd"));
    assert!(abd.accepts("abbbbd"));
    assert!(abd.accepts("abdddd"));
}

#[test]
fn kleene_plus_test() {
    let nfa = NFA::from(&"a+b+").unwrap();
    assert!(nfa.accepts(&"abb"));
    assert!(nfa.accepts(&"ab"));
    assert!(nfa.accepts(&"aaaaab"));
    assert!(nfa.accepts(&"aaaaaaaabbbbbb"));
}

#[test]
fn kleene_alternation() {
    let nfa = NFA::from(&"(a|b)+(c|d)+").unwrap();
    assert!(nfa.accepts(&"abbc"));
    assert!(nfa.accepts(&"adc"));
    let nfa = NFA::from(&"(a|b)+|(c|d)+").unwrap();
    assert!(nfa.accepts(&"abb"));
    assert!(nfa.accepts(&"dc"));
}

#[test]
fn kleene_plus_closure() {
    let nfa = NFA::from(&"(a*)b+").unwrap();
    assert!(nfa.accepts(&"b"));
    assert!(nfa.accepts(&"ab"));
}

#[test]
#[should_panic]
fn kleene_plus_early_end() {
    let nfa = NFA::from(&"(ab)+b+").unwrap();
    assert!(nfa.accepts(&"ababab"));
}

#[test]
fn kleene_plus_end() {
    let nfa = NFA::from(&"(ab)+bc*").unwrap();
    assert!(nfa.accepts(&"abababb"));
}

#[test]
fn kleene_plus_correct_alternation() {
    let nfa = NFA::from(&"(abc)|b+|(ab)+").unwrap();
    assert!(nfa.accepts(&"abc"));
    assert!(nfa.accepts(&"b"));
    assert!(nfa.accepts(&"ab"));
    assert!(nfa.accepts(&"abababab"));
}

#[test]
fn simple_test() {
    let nfa = NFA::from(&"ab").unwrap();
    assert!(nfa.accepts(&"ab"), "Invalid accepts!");
}

#[test]
fn test_any_kleene() {
    let nfa = NFA::from(&".*").unwrap();
    assert!(nfa.accepts(&"abccc"), "Invalid accepts!");
}

#[test]
fn test_any_kleene_with_middle() {
    let nfa = NFA::from(&".*ab.*").unwrap();
    assert!(nfa.accepts(&"abc"), "Invalid accepts!");
}

#[test]
fn test_any_kleene_with_middle_and_end() {
    let nfa = NFA::from(&"ab.*ab.*ab").unwrap();
    assert!(nfa.accepts(&"abccccccccccccccabcdab"), "Invalid accepts!");
}

#[test]
#[should_panic]
fn test_fail_any_kleene_with_middle_and_end() {
    let nfa = NFA::from(&"ab.*ab.*ab").unwrap();
    assert!(nfa.accepts(&"abcccccccccccccbcdab"), "Invalid accepts!");
}

#[test]
#[should_panic]
fn test_any_kleene_panic() {
    let nfa = NFA::from(&".*a.*").unwrap();
    assert!(nfa.accepts(&"bbbbbb"), "Invalid accepts!");
}

#[test]
#[should_panic]
fn simple_overflow() {
    let nfa = NFA::from(&"ab").unwrap();
    assert!(nfa.accepts(&"abc"), "Invalid accepts!");
}

#[test]
#[should_panic]
fn non_matching_string() {
    let nfa = NFA::from(&"hello").unwrap();
    assert!(nfa.accepts(&"abc"), "Invalid accepts!");
}

#[test]
#[should_panic]
fn test_fail_alternation() {
    let nfa = NFA::from(&"x|y").unwrap();
    assert!(nfa.accepts(&"z"), "Invalid accepts!");
}

#[test]
#[should_panic]
fn beginning_string() {
    let nfa = NFA::from(&"he").unwrap();
    assert!(nfa.accepts(&"hello"), "Invalid accepts!");
}

#[test]
#[should_panic]
fn ending_string() {
    let nfa = NFA::from(&"lo").unwrap();
    assert!(nfa.accepts(&"hello"), "Invalid accepts!");
}

#[test]
#[should_panic]
fn middle_string() {
    let nfa = NFA::from(&"el").unwrap();
    assert!(nfa.accepts(&"hello"), "Invalid accepts!");
}

#[test]
fn regex_closure_ending() {
    let nfa = NFA::from(&"he*").unwrap();
    assert!(nfa.accepts(&"heeeeee"), "Invalid accepts!");
}

#[test]
fn regex_any_char() {
    let nfa = NFA::from(&"he..o").unwrap();
    assert!(nfa.accepts(&"hello"), "Invalid accepts!");
}

#[test]
fn kleene_ending() {
    let nfa = NFA::from(&"h.*").unwrap();
    assert!(nfa.accepts(&"hello"), "Invalid accepts!");
    assert!(nfa.accepts(&"h"), "Invalid accepts!");
}

#[test]
fn test_alternation() {
    let nfa = NFA::from(&"(h|e)e(l|y)lo").unwrap();
    assert!(nfa.accepts(&"hello"), "Invalid accepts!");
}

#[test]
fn test_alternation_with_any_char() {
    let nfa = NFA::from(&"(h|a)..(l|o).").unwrap();
    assert!(nfa.accepts(&"hello"), "Invalid accepts!");
}

#[test]
fn smorgasbord_of_regex() {
    let nfa = NFA::from(&"(h|a|e)*.(l)(l)(o|a)").unwrap();
    assert!(nfa.accepts(&"hello"), "Invalid accepts!");
}

#[test]
fn beginning_before_closure() {
    let nfa = NFA::from(&"a.*c").unwrap();
    assert!(nfa.accepts(&"aelloc"), "Invalid accepts!");
}

#[test]
fn hanks_test() {
    let nfa = NFA::from(&"a|b|c").unwrap();
    assert!(nfa.accepts(&"a"), "Invalid accepts!");
    assert!(nfa.accepts(&"b"), "Invalid accepts!");
    assert!(nfa.accepts(&"c"), "Invalid accepts!");
}

#[test]
#[should_panic]
fn invalid_closure_concat() {
    let nfa = NFA::from(&"abd*c").unwrap();
    assert!(nfa.accepts(&"abbc"), "Invalid accepts!");
}
