use ground_kb::bank::{Id, TermBank};
use ground_kb::rule::Rule;

fn sym(s: &str) -> String {
    s.to_string()
}

fn shown(tb: &TermBank, ids: &[Id]) -> Vec<String> {
    ids.iter().map(|&t| tb.stringify(t)).collect()
}

fn shown_eqs(tb: &TermBank, eqs: &[ground_kb::rule::Eq]) -> Vec<String> {
    eqs.iter().map(|&e| tb.stringify_eq(e)).collect()
}

#[test]
fn deduce_test() {
    let mut tb = TermBank::new();
    let a = tb.app(sym("a"), vec![]);
    let b = tb.app(sym("b"), vec![]);
    let c = tb.app(sym("c"), vec![]);
    let f_aa = tb.app(sym("f"), vec![a, a]);
    let neweqs = tb.deduce(&Rule { lhs: f_aa, rhs: b }, &Rule { lhs: a, rhs: c });
    let f_ca = tb.app(sym("f"), vec![c, a]);
    let f_ac = tb.app(sym("f"), vec![a, c]);
    assert_eq!(
        neweqs,
        vec![
            ground_kb::rule::Eq { lhs: f_ca, rhs: b },
            ground_kb::rule::Eq { lhs: f_ac, rhs: b },
        ]
    );
    assert_eq!(shown_eqs(&tb, &neweqs), vec!["f(c, a) = b", "f(a, c) = b"]);
}

#[test]
fn deduce_rewrites_one_position_at_a_time() {
    let mut tb = TermBank::new();
    let a = tb.app(sym("a"), vec![]);
    let b = tb.app(sym("b"), vec![]);
    let c = tb.app(sym("c"), vec![]);
    let f_aa = tb.app(sym("f"), vec![a, a]);
    let variants = tb.all_subst(f_aa, &Rule { lhs: a, rhs: c });
    let eqs = tb.deduce(&Rule { lhs: f_aa, rhs: b }, &Rule { lhs: a, rhs: c });
    let paired: Vec<ground_kb::rule::Eq> =
        variants.iter().map(|&v| ground_kb::rule::Eq { lhs: v, rhs: b }).collect();
    assert_eq!(eqs, paired);
    let f_cc = tb.app(sym("f"), vec![c, c]);
    assert!(eqs.iter().all(|e| e.lhs != f_cc));
    assert_eq!(eqs.len(), 2);
}

#[test]
fn deduce_does_not_depend_on_the_order_of_the_rules() {
    let mut tb = TermBank::new();
    let a = tb.app(sym("a"), vec![]);
    let b = tb.app(sym("b"), vec![]);
    let c = tb.app(sym("c"), vec![]);
    let f_aa = tb.app(sym("f"), vec![a, a]);
    let g = tb.app(sym("g"), vec![f_aa, a]);
    let big = Rule { lhs: g, rhs: b };
    let small = Rule { lhs: a, rhs: c };
    let one = tb.deduce(&big, &small);
    let two = tb.deduce(&small, &big);
    assert_eq!(one, two);
    assert_eq!(
        shown_eqs(&tb, &one),
        vec!["g(f(c, a), a) = b", "g(f(a, c), a) = b", "g(f(a, a), c) = b"]
    );
}

#[test]
fn deduce_keeps_the_order_of_rules_with_left_sides_of_one_size() {
    let mut tb = TermBank::new();
    let a = tb.app(sym("a"), vec![]);
    let b = tb.app(sym("b"), vec![]);
    let f_a = tb.app(sym("f"), vec![a]);
    let g_a = tb.app(sym("g"), vec![a]);
    let r1 = Rule { lhs: f_a, rhs: a };
    let r2 = Rule { lhs: f_a, rhs: b };
    assert_eq!(tb.deduce(&r1, &r2), vec![ground_kb::rule::Eq { lhs: b, rhs: a }]);
    assert_eq!(tb.deduce(&r2, &r1), vec![ground_kb::rule::Eq { lhs: a, rhs: b }]);
    let r3 = Rule { lhs: g_a, rhs: b };
    assert_eq!(tb.deduce(&r1, &r3), vec![]);
}

#[test]
fn deduce_without_overlap_gives_nothing() {
    let mut tb = TermBank::new();
    let a = tb.app(sym("a"), vec![]);
    let b = tb.app(sym("b"), vec![]);
    let c = tb.app(sym("c"), vec![]);
    let f_aa = tb.app(sym("f"), vec![a, a]);
    let n = tb.len();
    assert_eq!(tb.deduce(&Rule { lhs: f_aa, rhs: a }, &Rule { lhs: c, rhs: b }), vec![]);
    assert_eq!(tb.len(), n);
}

#[test]
fn substitute_at_the_root_gives_the_right_side() {
    let mut tb = TermBank::new();
    let a = tb.app(sym("a"), vec![]);
    let c = tb.app(sym("c"), vec![]);
    let f_aa = tb.app(sym("f"), vec![a, a]);
    assert_eq!(tb.substitute(a, Rule { lhs: a, rhs: c }), c);
    assert_eq!(tb.substitute(f_aa, Rule { lhs: f_aa, rhs: a }), a);
}

#[test]
fn substitute_replaces_every_occurrence() {
    let mut tb = TermBank::new();
    let a = tb.app(sym("a"), vec![]);
    let b = tb.app(sym("b"), vec![]);
    let c = tb.app(sym("c"), vec![]);
    let f_aa = tb.app(sym("f"), vec![a, a]);
    let g = tb.app(sym("g"), vec![f_aa, b, a]);
    let out = tb.substitute(g, Rule { lhs: a, rhs: c });
    assert_eq!(tb.stringify(out), "g(f(c, c), b, c)");
    assert!(!tb.is_subterm(out, a));
    assert_eq!(tb.stringify(g), "g(f(a, a), b, a)");
}

#[test]
fn substitute_without_occurrence_gives_the_term_back() {
    let mut tb = TermBank::new();
    let a = tb.app(sym("a"), vec![]);
    let b = tb.app(sym("b"), vec![]);
    let c = tb.app(sym("c"), vec![]);
    let f_ab = tb.app(sym("f"), vec![a, b]);
    let n = tb.len();
    assert_eq!(tb.substitute(f_ab, Rule { lhs: c, rhs: a }), f_ab);
    assert_eq!(tb.len(), n);
}

#[test]
fn substitute_reuses_terms_that_are_interned_already() {
    let mut tb = TermBank::new();
    let a = tb.app(sym("a"), vec![]);
    let c = tb.app(sym("c"), vec![]);
    let f_aa = tb.app(sym("f"), vec![a, a]);
    let f_cc = tb.app(sym("f"), vec![c, c]);
    let n = tb.len();
    assert_eq!(tb.substitute(f_aa, Rule { lhs: a, rhs: c }), f_cc);
    assert_eq!(tb.len(), n);
}

#[test]
fn substitute_does_not_rewrite_inside_the_right_side() {
    let mut tb = TermBank::new();
    let a = tb.app(sym("a"), vec![]);
    let f_a = tb.app(sym("f"), vec![a]);
    let g_a = tb.app(sym("g"), vec![a]);
    let out = tb.substitute(g_a, Rule { lhs: a, rhs: f_a });
    assert_eq!(tb.stringify(out), "g(f(a))");
    assert!(tb.is_subterm(out, a));
}

#[test]
fn substitute_may_rebuild_the_left_side() {
    let mut tb = TermBank::new();
    let b = tb.app(sym("b"), vec![]);
    let f_b = tb.app(sym("f"), vec![b]);
    let f_f_b = tb.app(sym("f"), vec![f_b]);
    let out = tb.substitute(f_f_b, Rule { lhs: f_b, rhs: b });
    assert_eq!(out, f_b);
    assert!(tb.is_subterm(out, f_b));
    assert!(!tb.is_subterm(b, f_b));
}

#[test]
fn all_subst_lists_one_term_per_occurrence() {
    let mut tb = TermBank::new();
    let a = tb.app(sym("a"), vec![]);
    let b = tb.app(sym("b"), vec![]);
    let c = tb.app(sym("c"), vec![]);
    let f_ab = tb.app(sym("f"), vec![a, b]);
    let g = tb.app(sym("g"), vec![f_ab, a, f_ab]);
    let out = tb.all_subst(g, &Rule { lhs: a, rhs: c });
    assert_eq!(
        shown(&tb, &out),
        vec!["g(f(c, b), a, f(a, b))", "g(f(a, b), c, f(a, b))", "g(f(a, b), a, f(c, b))"]
    );
}

#[test]
fn all_subst_at_the_root_gives_only_the_right_side() {
    let mut tb = TermBank::new();
    let a = tb.app(sym("a"), vec![]);
    let b = tb.app(sym("b"), vec![]);
    let f_aa = tb.app(sym("f"), vec![a, a]);
    assert_eq!(tb.all_subst(f_aa, &Rule { lhs: f_aa, rhs: b }), vec![b]);
    assert_eq!(tb.all_subst(a, &Rule { lhs: a, rhs: b }), vec![b]);
}

#[test]
fn all_subst_does_not_look_inside_a_match() {
    let mut tb = TermBank::new();
    let a = tb.app(sym("a"), vec![]);
    let b = tb.app(sym("b"), vec![]);
    let f_a = tb.app(sym("f"), vec![a]);
    let f_f_a = tb.app(sym("f"), vec![f_a]);
    let g = tb.app(sym("g"), vec![f_f_a]);
    let h = tb.app(sym("h"), vec![g, f_a]);
    let out = tb.all_subst(h, &Rule { lhs: f_a, rhs: b });
    assert_eq!(shown(&tb, &out), vec!["h(g(f(b)), f(a))", "h(g(f(f(a))), b)"]);
    let top = tb.all_subst(f_f_a, &Rule { lhs: f_f_a, rhs: a });
    assert_eq!(top, vec![a]);
}

#[test]
fn all_subst_without_occurrence_is_empty() {
    let mut tb = TermBank::new();
    let a = tb.app(sym("a"), vec![]);
    let b = tb.app(sym("b"), vec![]);
    let c = tb.app(sym("c"), vec![]);
    let f_ab = tb.app(sym("f"), vec![a, b]);
    let n = tb.len();
    assert_eq!(tb.all_subst(f_ab, &Rule { lhs: c, rhs: a }), Vec::<Id>::new());
    assert_eq!(tb.all_subst(a, &Rule { lhs: f_ab, rhs: a }), Vec::<Id>::new());
    assert_eq!(tb.len(), n);
}

#[test]
fn rewriting_only_grows_the_bank() {
    let mut tb = TermBank::new();
    let a = tb.app(sym("a"), vec![]);
    let b = tb.app(sym("b"), vec![]);
    let c = tb.app(sym("c"), vec![]);
    let f_aa = tb.app(sym("f"), vec![a, a]);
    let before: Vec<String> = (0..tb.len()).map(|t| tb.stringify(t)).collect();
    tb.substitute(f_aa, Rule { lhs: a, rhs: c });
    tb.all_subst(f_aa, &Rule { lhs: a, rhs: b });
    tb.deduce(&Rule { lhs: f_aa, rhs: b }, &Rule { lhs: a, rhs: c });
    assert!(tb.len() >= before.len());
    for (t, s) in before.iter().enumerate() {
        assert_eq!(&tb.stringify(t), s);
    }
}
