use guise::devtools::styles::{kebab, kebab_parts};

#[test]
fn variants_are_kebab_cased() {
    assert_eq!(kebab("SpaceBetween"), "space-between");
    assert_eq!(kebab("Center"), "center");
    assert_eq!(kebab("Flex"), "flex");
    assert_eq!(kebab("FlexStart"), "flex-start");
    assert_eq!(kebab("already"), "already");
    assert_eq!(kebab(""), "");
}

#[test]
fn kebab_lowercases_beyond_ascii() {
    assert_eq!(kebab("ÉtéHiver"), "été-hiver");
}

#[test]
fn kebab_parts_follow_the_given_cases() {
    let chars: Vec<char> = "AbC".chars().collect();
    let upper = vec![true, false, true];
    let lowered = vec![vec!['a'], vec!['b'], vec!['x', 'y']];
    assert_eq!(kebab_parts(&chars, &upper, &lowered), "ab-xy");
}
