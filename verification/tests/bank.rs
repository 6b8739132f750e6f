use ground_kb::bank::{Id, TermBank};

fn sym(s: &str) -> String {
    s.to_string()
}

#[test]
fn new_bank_is_empty() {
    let tb = TermBank::new();
    assert_eq!(tb.len(), 0);
}

#[test]
fn identifiers_are_handed_out_in_order() {
    let mut tb = TermBank::new();
    let a = tb.app(sym("a"), vec![]);
    let b = tb.app(sym("b"), vec![]);
    let f_ab = tb.app(sym("f"), vec![a, b]);
    assert_eq!((a, b, f_ab), (0, 1, 2));
    assert_eq!(tb.len(), 3);
}

#[test]
fn interning_twice_gives_the_same_id() {
    let mut tb = TermBank::new();
    let a = tb.app(sym("a"), vec![]);
    let f_aa = tb.app(sym("f"), vec![a, a]);
    let n = tb.len();
    assert_eq!(tb.app(sym("a"), vec![]), a);
    assert_eq!(tb.app(sym("f"), vec![a, a]), f_aa);
    assert_eq!(tb.len(), n);
}

#[test]
fn any_difference_gives_another_id() {
    let mut tb = TermBank::new();
    let a = tb.app(sym("a"), vec![]);
    let b = tb.app(sym("b"), vec![]);
    let f_a = tb.app(sym("f"), vec![a]);
    let g_a = tb.app(sym("g"), vec![a]);
    let f_b = tb.app(sym("f"), vec![b]);
    let f_aa = tb.app(sym("f"), vec![a, a]);
    let f_ab = tb.app(sym("f"), vec![a, b]);
    let f_ba = tb.app(sym("f"), vec![b, a]);
    let f_none = tb.app(sym("f"), vec![]);
    let all: Vec<Id> = vec![a, b, f_a, g_a, f_b, f_aa, f_ab, f_ba, f_none];
    for i in 0..all.len() {
        for j in 0..all.len() {
            assert_eq!(all[i] == all[j], i == j);
        }
    }
    assert_eq!(tb.len(), all.len());
}

#[test]
fn many_terms_keep_their_ids() {
    let mut tb = TermBank::new();
    let mut ids: Vec<Id> = Vec::new();
    let zero = tb.app(sym("0"), vec![]);
    ids.push(zero);
    for i in 1..500 {
        let prev = ids[i - 1];
        ids.push(tb.app(sym("s"), vec![prev]));
    }
    assert_eq!(tb.len(), 500);
    for i in 1..500 {
        assert_eq!(tb.app(sym("s"), vec![ids[i - 1]]), ids[i]);
    }
    assert_eq!(tb.len(), 500);
    assert_eq!(tb.size(ids[499]), 500);
}

#[test]
fn symbol_and_args_are_those_interned() {
    let mut tb = TermBank::new();
    let a = tb.app(sym("a"), vec![]);
    let b = tb.app(sym("b"), vec![]);
    let f_ab = tb.app(sym("f"), vec![a, b]);
    assert_eq!(tb.symbol(f_ab), "f");
    assert_eq!(tb.args(f_ab), &vec![a, b]);
    assert_eq!(tb.symbol(a), "a");
    assert!(tb.args(a).is_empty());
}

#[test]
fn stringify_constant_is_bare_symbol() {
    let mut tb = TermBank::new();
    let a = tb.app(sym("a"), vec![]);
    assert_eq!(tb.stringify(a), "a");
}

#[test]
fn stringify_joins_arguments_with_comma_and_space() {
    let mut tb = TermBank::new();
    let a = tb.app(sym("a"), vec![]);
    let b = tb.app(sym("b"), vec![]);
    let f_a = tb.app(sym("f"), vec![a]);
    let f_aa = tb.app(sym("f"), vec![a, a]);
    let g = tb.app(sym("g"), vec![f_a, b, f_aa]);
    assert_eq!(tb.stringify(f_a), "f(a)");
    assert_eq!(tb.stringify(f_aa), "f(a, a)");
    assert_eq!(tb.stringify(g), "g(f(a), b, f(a, a))");
}

#[test]
fn stringify_round_trip_on_interned_term() {
    let mut tb = TermBank::new();
    let x = tb.app(sym("x"), vec![]);
    let h_x = tb.app(sym("h"), vec![x]);
    let args = vec![x, h_x, x];
    let t = tb.app(sym("k"), args.clone());
    let parts: Vec<String> = args.iter().map(|&a| tb.stringify(a)).collect();
    assert_eq!(tb.stringify(t), format!("k({})", parts.join(", ")));
    assert_eq!(tb.stringify(t), "k(x, h(x), x)");
}

#[test]
fn stringify_non_ascii_symbol() {
    let mut tb = TermBank::new();
    let a = tb.app(sym("α"), vec![]);
    let f = tb.app(sym("λ→"), vec![a, a]);
    assert_eq!(tb.stringify(f), "λ→(α, α)");
}

#[test]
fn stringify_eq_and_rule() {
    let mut tb = TermBank::new();
    let a = tb.app(sym("a"), vec![]);
    let b = tb.app(sym("b"), vec![]);
    let f_aa = tb.app(sym("f"), vec![a, a]);
    assert_eq!(tb.stringify_eq(ground_kb::rule::Eq { lhs: f_aa, rhs: b }), "f(a, a) = b");
    assert_eq!(tb.stringify_rule(ground_kb::rule::Rule { lhs: f_aa, rhs: b }), "f(a, a) -> b");
}

#[test]
fn size_of_constant_is_one() {
    let mut tb = TermBank::new();
    let a = tb.app(sym("a"), vec![]);
    assert_eq!(tb.size(a), 1);
}

#[test]
fn size_is_one_plus_sizes_of_arguments() {
    let mut tb = TermBank::new();
    let a = tb.app(sym("a"), vec![]);
    let b = tb.app(sym("b"), vec![]);
    let f_ab = tb.app(sym("f"), vec![a, b]);
    let g = tb.app(sym("g"), vec![f_ab, a]);
    let h = tb.app(sym("h"), vec![g, f_ab]);
    assert_eq!(tb.size(f_ab), 1 + tb.size(a) + tb.size(b));
    assert_eq!(tb.size(f_ab), 3);
    assert_eq!(tb.size(g), 5);
    assert_eq!(tb.size(h), 1 + tb.size(g) + tb.size(f_ab));
    assert_eq!(tb.size(h), 9);
}

#[test]
fn size_counts_a_shared_subterm_once_per_occurrence() {
    let mut tb = TermBank::new();
    let mut t = tb.app(sym("a"), vec![]);
    for _ in 0..10 {
        t = tb.app(sym("f"), vec![t, t]);
    }
    assert_eq!(tb.len(), 11);
    assert_eq!(tb.size(t), 2047);
}

#[test]
fn is_subterm_is_reflexive() {
    let mut tb = TermBank::new();
    let a = tb.app(sym("a"), vec![]);
    let f_a = tb.app(sym("f"), vec![a]);
    assert!(tb.is_subterm(a, a));
    assert!(tb.is_subterm(f_a, f_a));
}

#[test]
fn is_subterm_follows_arguments_down() {
    let mut tb = TermBank::new();
    let a = tb.app(sym("a"), vec![]);
    let b = tb.app(sym("b"), vec![]);
    let c = tb.app(sym("c"), vec![]);
    let f_ab = tb.app(sym("f"), vec![a, b]);
    let g = tb.app(sym("g"), vec![c, f_ab]);
    assert!(tb.is_subterm(g, f_ab));
    assert!(tb.is_subterm(f_ab, b));
    assert!(tb.is_subterm(g, b));
    assert!(tb.is_subterm(g, c));
    assert!(!tb.is_subterm(f_ab, c));
    assert!(!tb.is_subterm(b, f_ab));
    assert!(!tb.is_subterm(f_ab, g));
}

#[test]
fn checked_size_agrees_with_size() {
    let mut tb = TermBank::new();
    let a = tb.app(sym("a"), vec![]);
    let b = tb.app(sym("b"), vec![]);
    let f_ab = tb.app(sym("f"), vec![a, b]);
    let g = tb.app(sym("g"), vec![f_ab, f_ab, a]);
    assert_eq!(tb.checked_size(a), Some(1));
    assert_eq!(tb.checked_size(f_ab), Some(3));
    assert_eq!(tb.checked_size(g), Some(8));
    for t in 0..tb.len() {
        assert_eq!(tb.checked_size(t), Some(tb.size(t)));
    }
}

#[test]
fn terms_with_equal_notation_prefixes_stay_apart() {
    let mut tb = TermBank::new();
    let a = tb.app(sym("a"), vec![]);
    let aa = tb.app(sym("aa"), vec![]);
    let a_a = tb.app(sym("a"), vec![a]);
    let empty = tb.app(sym(""), vec![]);
    let empty_a = tb.app(sym(""), vec![a]);
    assert_eq!(tb.len(), 5);
    assert_eq!(tb.stringify(aa), "aa");
    assert_eq!(tb.stringify(a_a), "a(a)");
    assert_eq!(tb.stringify(empty), "");
    assert_eq!(tb.stringify(empty_a), "(a)");
    assert_eq!(tb.app(sym("aa"), vec![]), aa);
    assert_eq!(tb.app(sym(""), vec![a]), empty_a);
}
