//! Implicit rules: pattern rules, suffix rules, chain rules, and built-ins.

use vstd::prelude::*;
use crate::error::{Loc, LocView};
use crate::text;
use crate::text::{append_str, chars_of, owned, put, string_of};
use super::rule;
use super::rule::{apply_chars, stem_of, PatternRule, PatternRuleView, RecipeLine, RecipeLineView};

verus! {

/// The default suffixes. Cleared by `.SUFFIXES:` with no deps.
pub open spec fn default_suffix_list() -> Seq<Seq<char>> {
    seq![
        ".out"@, ".a"@, ".ln"@, ".o"@, ".c"@, ".cc"@, ".C"@, ".cpp"@, ".p"@, ".f"@, ".F"@,
        ".m"@, ".r"@, ".y"@, ".l"@, ".ym"@, ".yl"@, ".s"@, ".S"@, ".mod"@, ".sym"@,
        ".def"@, ".h"@, ".info"@, ".dvi"@, ".tex"@, ".texinfo"@, ".texi"@,
        ".txinfo"@, ".w"@, ".ch"@, ".web"@, ".sh"@, ".elc"@, ".el"@,
    ]
}

/// Default suffix list (in order).
pub fn default_suffixes() -> (r: Vec<String>)
    ensures
        text::views(r@) == default_suffix_list(),
{
    broadcast use text::group_views;

    let mut v: Vec<String> = Vec::new();
    put(&mut v, ".out");
    put(&mut v, ".a");
    put(&mut v, ".ln");
    put(&mut v, ".o");
    put(&mut v, ".c");
    put(&mut v, ".cc");
    put(&mut v, ".C");
    put(&mut v, ".cpp");
    put(&mut v, ".p");
    put(&mut v, ".f");
    put(&mut v, ".F");
    put(&mut v, ".m");
    put(&mut v, ".r");
    put(&mut v, ".y");
    put(&mut v, ".l");
    put(&mut v, ".ym");
    put(&mut v, ".yl");
    put(&mut v, ".s");
    put(&mut v, ".S");
    put(&mut v, ".mod");
    put(&mut v, ".sym");
    put(&mut v, ".def");
    put(&mut v, ".h");
    put(&mut v, ".info");
    put(&mut v, ".dvi");
    put(&mut v, ".tex");
    put(&mut v, ".texinfo");
    put(&mut v, ".texi");
    put(&mut v, ".txinfo");
    put(&mut v, ".w");
    put(&mut v, ".ch");
    put(&mut v, ".web");
    put(&mut v, ".sh");
    put(&mut v, ".elc");
    put(&mut v, ".el");
    v
}

/// Translate a suffix rule `.a.b:` into a pattern rule `%.b: %.a`.
pub fn suffix_to_pattern(from: &str, to: &str, recipe: Vec<RecipeLine>, loc: Loc) -> (r: PatternRule)
    ensures
        r@ == (PatternRuleView {
            target: "%"@ + to@,
            prereqs: seq!["%"@ + from@],
            recipe: text::views(recipe@),
            is_builtin: false,
            loc: loc@,
        }),
{
    broadcast use text::group_views;

    let mut t = chars_of("%");
    append_str(&mut t, to);
    let mut p = chars_of("%");
    append_str(&mut p, from);
    let mut prereqs: Vec<String> = Vec::new();
    prereqs.push(string_of(p.as_slice()));
    PatternRule { target: string_of(t.as_slice()), prereqs, recipe, is_builtin: false, loc }
}

/// A built-in rule that makes a target from one prerequisite.
pub open spec fn builtin_rule(
    target: Seq<char>,
    prereq: Seq<char>,
    recipe: Seq<RecipeLineView>,
) -> PatternRuleView {
    PatternRuleView {
        target,
        prereqs: seq![prereq],
        recipe,
        is_builtin: true,
        loc: LocView { file: "<builtin>"@, line: 0 },
    }
}

/// The built-in rules: compiling, assembling, linking, lex and yacc.
pub open spec fn builtin_rule_list() -> Seq<PatternRuleView> {
    let cc = rule::recipe_line("$(CC) $(CFLAGS) $(CPPFLAGS) $(TARGET_ARCH) -c -o $@ $<"@);
    let cxx = rule::recipe_line("$(CXX) $(CXXFLAGS) $(CPPFLAGS) $(TARGET_ARCH) -c -o $@ $<"@);
    let assemble = rule::recipe_line("$(AS) $(ASFLAGS) $(TARGET_MACH) -o $@ $<"@);
    let cpp = rule::recipe_line("$(CC) -E $(CPPFLAGS) $(TARGET_ARCH) $< > $@"@);
    let link = rule::recipe_line(
        "$(CC) $(LDFLAGS) $(TARGET_ARCH) $< $(LOADLIBES) $(LDLIBS) -o $@"@,
    );
    let lex = rule::recipe_line("$(LEX) $(LFLAGS) $<"@);
    let lex_out = rule::recipe_line("mv -f lex.yy.c $@"@);
    let yacc = rule::recipe_line("$(YACC) $(YFLAGS) $<"@);
    let yacc_out = rule::recipe_line("mv -f y.tab.c $@"@);
    seq![
        builtin_rule("%.o"@, "%.c"@, seq![cc]),
        builtin_rule("%.o"@, "%.cc"@, seq![cxx]),
        builtin_rule("%.o"@, "%.cpp"@, seq![cxx]),
        builtin_rule("%.o"@, "%.C"@, seq![cxx]),
        builtin_rule("%.o"@, "%.s"@, seq![assemble]),
        builtin_rule("%.s"@, "%.S"@, seq![cpp]),
        builtin_rule("%"@, "%.o"@, seq![link]),
        builtin_rule("%.c"@, "%.l"@, seq![lex, lex_out]),
        builtin_rule("%.c"@, "%.y"@, seq![yacc, yacc_out]),
    ]
}

fn add_builtin(
    rules: &mut Vec<PatternRule>,
    target: &str,
    prereq: &str,
    command: &str,
    second: Option<&str>,
)
    ensures
        text::views(final(rules)@) == text::views(old(rules)@).push(
            builtin_rule(
                target@,
                prereq@,
                match second {
                    None => seq![rule::recipe_line(command@)],
                    Some(c) => seq![rule::recipe_line(command@), rule::recipe_line(c@)],
                },
            ),
        ),
{
    broadcast use text::group_views;

    let mut prereqs: Vec<String> = Vec::new();
    prereqs.push(owned(prereq));
    let mut recipe: Vec<RecipeLine> = Vec::new();
    recipe.push(RecipeLine::new(command));
    if let Some(c) = second {
        recipe.push(RecipeLine::new(c));
    }
    let made = PatternRule {
        target: owned(target),
        prereqs,
        recipe,
        is_builtin: true,
        loc: Loc::new("<builtin>", 0),
    };
    proof {
        assert(made@.prereqs =~= seq![prereq@]);
        assert(made@.recipe =~= match second {
            None => seq![rule::recipe_line(command@)],
            Some(c) => seq![rule::recipe_line(command@), rule::recipe_line(c@)],
        });
    }
    rules.push(made);
}

/// Return the list of built-in pattern rules (when `-r` is NOT set).
pub fn builtin_rules() -> (r: Vec<PatternRule>)
    ensures
        text::views(r@) == builtin_rule_list(),
{
    broadcast use text::group_views;

    let mut rules: Vec<PatternRule> = Vec::new();
    let cc = "$(CC) $(CFLAGS) $(CPPFLAGS) $(TARGET_ARCH) -c -o $@ $<";
    let cxx = "$(CXX) $(CXXFLAGS) $(CPPFLAGS) $(TARGET_ARCH) -c -o $@ $<";
    // C compilation
    add_builtin(&mut rules, "%.o", "%.c", cc, None);
    // C++ compilation
    add_builtin(&mut rules, "%.o", "%.cc", cxx, None);
    add_builtin(&mut rules, "%.o", "%.cpp", cxx, None);
    add_builtin(&mut rules, "%.o", "%.C", cxx, None);
    // Assembler
    add_builtin(&mut rules, "%.o", "%.s", "$(AS) $(ASFLAGS) $(TARGET_MACH) -o $@ $<", None);
    // Assembler with preprocessing
    add_builtin(&mut rules, "%.s", "%.S", "$(CC) -E $(CPPFLAGS) $(TARGET_ARCH) $< > $@", None);
    // C linking
    add_builtin(
        &mut rules,
        "%",
        "%.o",
        "$(CC) $(LDFLAGS) $(TARGET_ARCH) $< $(LOADLIBES) $(LDLIBS) -o $@",
        None,
    );
    // Lex
    add_builtin(
        &mut rules,
        "%.c",
        "%.l",
        "$(LEX) $(LFLAGS) $<",
        Some("mv -f lex.yy.c $@"),
    );
    // Yacc
    add_builtin(
        &mut rules,
        "%.c",
        "%.y",
        "$(YACC) $(YFLAGS) $<",
        Some("mv -f y.tab.c $@"),
    );
    rules
}

/// The built-in variables and their values.
pub open spec fn builtin_var_list() -> Seq<(Seq<char>, Seq<char>)> {
    seq![
        ("CC"@, "cc"@),
        ("CXX"@, "g++"@),
        ("CPP"@, "$(CC) -E"@),
        ("FC"@, "f77"@),
        ("AR"@, "ar"@),
        ("ARFLAGS"@, "rv"@),
        ("AS"@, "as"@),
        ("LEX"@, "lex"@),
        ("YACC"@, "yacc"@),
        ("CFLAGS"@, ""@),
        ("CXXFLAGS"@, ""@),
        ("CPPFLAGS"@, ""@),
        ("FFLAGS"@, ""@),
        ("ASFLAGS"@, ""@),
        ("LDFLAGS"@, ""@),
        ("LDLIBS"@, ""@),
        ("LOADLIBES"@, ""@),
        ("OUTPUT_OPTION"@, "-o $@"@),
    ]
}

/// The texts of pairs of strings.
pub open spec fn pair_views(s: Seq<(&'static str, &'static str)>) -> Seq<(Seq<char>, Seq<char>)> {
    s.map_values(|p: (&'static str, &'static str)| (p.0@, p.1@))
}

fn add_var(vars: &mut Vec<(&'static str, &'static str)>, name: &'static str, value: &'static str)
    ensures
        pair_views(final(vars)@) == pair_views(old(vars)@).push((name@, value@)),
{
    vars.push((name, value));
    proof {
        assert(pair_views(vars@) =~= pair_views(old(vars)@).push((name@, value@)));
    }
}

/// Built-in variable defaults (when `-R` is NOT set).
pub fn builtin_vars() -> (r: Vec<(&'static str, &'static str)>)
    ensures
        pair_views(r@) == builtin_var_list(),
{
    let mut vars: Vec<(&'static str, &'static str)> = Vec::new();
    proof {
        assert(pair_views(vars@) =~= seq![]);
    }
    add_var(&mut vars, "CC", "cc");
    add_var(&mut vars, "CXX", "g++");
    add_var(&mut vars, "CPP", "$(CC) -E");
    add_var(&mut vars, "FC", "f77");
    add_var(&mut vars, "AR", "ar");
    add_var(&mut vars, "ARFLAGS", "rv");
    add_var(&mut vars, "AS", "as");
    add_var(&mut vars, "LEX", "lex");
    add_var(&mut vars, "YACC", "yacc");
    add_var(&mut vars, "CFLAGS", "");
    add_var(&mut vars, "CXXFLAGS", "");
    add_var(&mut vars, "CPPFLAGS", "");
    add_var(&mut vars, "FFLAGS", "");
    add_var(&mut vars, "ASFLAGS", "");
    add_var(&mut vars, "LDFLAGS", "");
    add_var(&mut vars, "LDLIBS", "");
    add_var(&mut vars, "LOADLIBES", "");
    add_var(&mut vars, "OUTPUT_OPTION", "-o $@");
    vars
}

// ── Finding a rule ──────────────────────────────────────────────────────────

/// The first rule from position `i` on whose target pattern matches, and the
/// stem.
pub open spec fn rule_for(
    target: Seq<char>,
    rules: Seq<PatternRuleView>,
    i: int,
) -> Option<(int, Seq<char>)>
    decreases rules.len() - i,
{
    if i < 0 || i >= rules.len() {
        None
    } else {
        match rule::stem(target, rules[i].target) {
            Some(s) => Some((i, s)),
            None => rule_for(target, rules, i + 1),
        }
    }
}

/// Find an applicable pattern rule for `target` from `rules`.
/// Returns `(rule_index, stem)`.
pub fn find_rule(target: &str, rules: &[PatternRule]) -> (r: Option<(usize, String)>)
    ensures
        match r {
            Some(p) => rule_for(target@, text::views(rules@), 0) == Some((p.0 as int, p.1@)),
            None => rule_for(target@, text::views(rules@), 0) is None,
        },
{
    let t = chars_of(target);
    let mut i: usize = 0;
    while i < rules.len()
        invariant
            i <= rules@.len(),
            t@ == target@,
            rule_for(target@, text::views(rules@), 0) == rule_for(
                target@,
                text::views(rules@),
                i as int,
            ),
        decreases rules.len() - i,
    {
        let p = chars_of(rules[i].target.as_str());
        if let Some(s) = stem_of(t.as_slice(), p.as_slice()) {
            return Some((i, string_of(s.as_slice())));
        }
        i = i + 1;
    }
    None
}

/// How far rules may be chained.
pub const MAX_CHAIN: usize = 5;

/// A list with another put before it, where there is one.
pub open spec fn joined<T>(a: Seq<T>, r: Option<Seq<T>>) -> Option<Seq<T>> {
    match r {
        None => None,
        Some(b) => Some(a + b),
    }
}

/// A chain of rules that makes `target` out of existing files: the first rule,
/// from position `i` on, whose target pattern matches and whose prerequisites
/// all exist or can be made by chains of their own, followed by those chains.
/// `there` tells which files exist, and `depth` counts the rules before it.
pub open spec fn chain(
    target: Seq<char>,
    rules: Seq<PatternRuleView>,
    there: spec_fn(Seq<char>) -> bool,
    depth: nat,
    i: int,
) -> Option<Seq<(int, Seq<char>)>>
    decreases MAX_CHAIN + 1 - depth, 1int, rules.len() - i,
{
    if depth > MAX_CHAIN || i < 0 || i >= rules.len() {
        None
    } else {
        match rule::stem(target, rules[i].target) {
            None => chain(target, rules, there, depth, i + 1),
            Some(s) => match chains(rules[i].prereqs, s, rules, there, depth, 0) {
                Some(rest) => Some(seq![(i, s)] + rest),
                None => chain(target, rules, there, depth, i + 1),
            },
        }
    }
}

/// The chains that make those of the prerequisites from position `j` on that do
/// not exist.
pub open spec fn chains(
    prereqs: Seq<Seq<char>>,
    stem: Seq<char>,
    rules: Seq<PatternRuleView>,
    there: spec_fn(Seq<char>) -> bool,
    depth: nat,
    j: int,
) -> Option<Seq<(int, Seq<char>)>>
    decreases MAX_CHAIN + 1 - depth, 0int, prereqs.len() - j,
{
    if depth > MAX_CHAIN {
        None
    } else if j < 0 || j >= prereqs.len() {
        Some(seq![])
    } else {
        let name = rule::applied(prereqs[j], stem);
        let here = if there(name) {
            Some(seq![])
        } else {
            chain(name, rules, there, depth + 1, 0)
        };
        match here {
            None => None,
            Some(a) => joined(a, chains(prereqs, stem, rules, there, depth, j + 1)),
        }
    }
}

/// The numbers and texts of a chain.
pub open spec fn chain_view(v: Seq<(usize, String)>) -> Seq<(int, Seq<char>)> {
    v.map_values(|p: (usize, String)| (p.0 as int, p.1@))
}

/// Whether a function that tells which files exist always says what `there` says.
pub open spec fn agrees<F: Fn(&str) -> bool>(f: F, there: spec_fn(Seq<char>) -> bool) -> bool {
    forall|s: &str, b: bool| #[trigger] call_ensures(f, (s,), b) ==> b == there(s@)
}

/// Whether a list, or that there is none, is the chain that was asked for.
pub open spec fn is_chain(
    r: Option<Vec<(usize, String)>>,
    want: Option<Seq<(int, Seq<char>)>>,
) -> bool {
    match r {
        Some(v) => want == Some(chain_view(v@)),
        None => want is None,
    }
}

/// Find a chain of implicit rules to build `target` from existing files.
///
/// Returns a sequence of `(rule_index, stem)` pairs from first to last,
/// where each rule's prerequisite is either an existing file or the output
/// of the next rule in the chain.
pub fn find_chain<F: Fn(&str) -> bool>(
    target: &str,
    rules: &[PatternRule],
    file_exists: &F,
    depth: usize,
) -> (r: Option<Vec<(usize, String)>>)
    requires
        forall|s: &str| #[trigger] call_requires(*file_exists, (s,)),
    ensures
        forall|there: spec_fn(Seq<char>) -> bool| #[trigger]
            agrees(*file_exists, there) ==> is_chain(
                r,
                chain(target@, text::views(rules@), there, depth as nat, 0),
            ),
    decreases MAX_CHAIN + 1 - depth, 1int,
{
    if depth > MAX_CHAIN {
        return None;
    }
    let ghost rs = text::views(rules@);
    let t = chars_of(target);
    let mut i: usize = 0;
    while i < rules.len()
        invariant
            i <= rules@.len(),
            t@ == target@,
            depth <= MAX_CHAIN,
            rs == text::views(rules@),
            forall|s: &str| #[trigger] call_requires(*file_exists, (s,)),
            forall|there: spec_fn(Seq<char>) -> bool| #[trigger]
                agrees(*file_exists, there) ==> chain(target@, rs, there, depth as nat, 0)
                    == chain(target@, rs, there, depth as nat, i as int),
        decreases rules.len() - i,
    {
        let p = chars_of(rules[i].target.as_str());
        assert(rs[i as int] == rules@[i as int]@);
        if let Some(s) = stem_of(t.as_slice(), p.as_slice()) {
            if let Some(mut rest) = chain_prereqs(&rules[i], s.as_slice(), rules, file_exists, depth) {
                let ghost tail = chain_view(rest@);
                let mut out: Vec<(usize, String)> = Vec::new();
                out.push((i, string_of(s.as_slice())));
                out.append(&mut rest);
                assert(chain_view(out@) =~= seq![(i as int, s@)] + tail);
                return Some(out);
            }
        }
        i = i + 1;
    }
    None
}

fn chain_prereqs<F: Fn(&str) -> bool>(
    rule: &PatternRule,
    stem: &[char],
    rules: &[PatternRule],
    file_exists: &F,
    depth: usize,
) -> (r: Option<Vec<(usize, String)>>)
    requires
        depth <= MAX_CHAIN,
        forall|s: &str| #[trigger] call_requires(*file_exists, (s,)),
    ensures
        forall|there: spec_fn(Seq<char>) -> bool| #[trigger]
            agrees(*file_exists, there) ==> is_chain(
                r,
                chains(rule@.prereqs, stem@, text::views(rules@), there, depth as nat, 0),
            ),
    decreases MAX_CHAIN + 1 - depth, 0int,
{
    let ghost rs = text::views(rules@);
    let ghost ps = rule@.prereqs;
    let ghost d = depth as nat;
    let mut out: Vec<(usize, String)> = Vec::new();
    let mut j: usize = 0;
    proof {
        assert(chain_view(out@) =~= seq![]);
        assert forall|there: spec_fn(Seq<char>) -> bool| #[trigger]
            agrees(*file_exists, there) implies chains(ps, stem@, rs, there, d, 0) == joined(
            chain_view(out@),
            chains(ps, stem@, rs, there, d, 0),
        ) by {
            lemma_joined_none(chains(ps, stem@, rs, there, d, 0));
        }
    }
    while j < rule.prereqs.len()
        invariant
            j <= rule.prereqs@.len(),
            depth <= MAX_CHAIN,
            d == depth,
            rs == text::views(rules@),
            ps == rule@.prereqs,
            forall|s: &str| #[trigger] call_requires(*file_exists, (s,)),
            forall|there: spec_fn(Seq<char>) -> bool| #[trigger]
                agrees(*file_exists, there) ==> chains(ps, stem@, rs, there, d, 0) == joined(
                    chain_view(out@),
                    chains(ps, stem@, rs, there, d, j as int),
                ),
        decreases rule.prereqs@.len() - j,
    {
        let pp = chars_of(rule.prereqs[j].as_str());
        let name = string_of(apply_chars(pp.as_slice(), stem).as_slice());
        assert(ps[j as int] == pp@);
        let ghost before = chain_view(out@);
        if file_exists(name.as_str()) {
            proof {
                assert forall|there: spec_fn(Seq<char>) -> bool| #[trigger]
                    agrees(*file_exists, there) implies chains(ps, stem@, rs, there, d, 0)
                    == joined(before, chains(ps, stem@, rs, there, d, j + 1)) by {
                    assert(there(name@));
                    lemma_joined_none(chains(ps, stem@, rs, there, d, j + 1));
                }
            }
        } else {
            match find_chain(name.as_str(), rules, file_exists, depth + 1) {
                Some(mut more) => {
                    let ghost here = chain_view(more@);
                    out.append(&mut more);
                    proof {
                        assert(chain_view(out@) =~= before + here);
                        assert forall|there: spec_fn(Seq<char>) -> bool| #[trigger]
                            agrees(*file_exists, there) implies chains(ps, stem@, rs, there, d, 0)
                            == joined(
                            chain_view(out@),
                            chains(ps, stem@, rs, there, d, j + 1),
                        ) by {
                            assert(!there(name@));
                            assert(chain(name@, rs, there, d + 1, 0) == Some(here));
                            lemma_joined_twice(
                                before,
                                here,
                                chains(ps, stem@, rs, there, d, j + 1),
                            );
                        }
                    }
                },
                None => {
                    proof {
                        assert forall|there: spec_fn(Seq<char>) -> bool| #[trigger]
                            agrees(*file_exists, there) implies chains(
                            ps,
                            stem@,
                            rs,
                            there,
                            d,
                            0,
                        ) is None by {
                            assert(!there(name@));
                            assert(chain(name@, rs, there, d + 1, 0) is None);
                        }
                    }
                    return None;
                },
            }
        }
        j = j + 1;
    }
    proof {
        assert(chain_view(out@) + Seq::<(int, Seq<char>)>::empty() =~= chain_view(out@));
    }
    Some(out)
}

proof fn lemma_joined_none<T>(r: Option<Seq<T>>)
    ensures
        joined(Seq::<T>::empty(), r) == r,
{
    if let Some(b) = r {
        assert(Seq::<T>::empty() + b =~= b);
    }
}

proof fn lemma_joined_twice<T>(a: Seq<T>, b: Seq<T>, r: Option<Seq<T>>)
    ensures
        joined(a, joined(b, r)) == joined(a + b, r),
{
    if let Some(c) = r {
        assert(a + (b + c) =~= a + b + c);
    }
}

/// A rule whose prerequisites all exist is a chain by itself, where no rule
/// before it matches the target.
pub proof fn lemma_one_rule_chain(
    target: Seq<char>,
    rules: Seq<PatternRuleView>,
    there: spec_fn(Seq<char>) -> bool,
    s: Seq<char>,
)
    requires
        rules.len() > 0,
        rule::stem(target, rules[0].target) == Some(s),
        forall|j: int|
            0 <= j < rules[0].prereqs.len() ==> there(
                rule::applied(#[trigger] rules[0].prereqs[j], s),
            ),
    ensures
        chain(target, rules, there, 0, 0) == Some(seq![(0int, s)]),
{
    lemma_existing_prereqs(rules[0].prereqs, s, rules, there, 0);
    assert(seq![(0int, s)] + Seq::<(int, Seq<char>)>::empty() =~= seq![(0int, s)]);
}

proof fn lemma_existing_prereqs(
    prereqs: Seq<Seq<char>>,
    s: Seq<char>,
    rules: Seq<PatternRuleView>,
    there: spec_fn(Seq<char>) -> bool,
    j: int,
)
    requires
        0 <= j <= prereqs.len(),
        forall|n: int|
            0 <= n < prereqs.len() ==> there(rule::applied(#[trigger] prereqs[n], s)),
    ensures
        chains(prereqs, s, rules, there, 0, j) == Some(Seq::<(int, Seq<char>)>::empty()),
    decreases prereqs.len() - j,
{
    if j < prereqs.len() {
        lemma_existing_prereqs(prereqs, s, rules, there, j + 1);
        assert(there(rule::applied(prereqs[j], s)));
        assert(Seq::<(int, Seq<char>)>::empty() + Seq::<(int, Seq<char>)>::empty() =~= seq![]);
    }
}

/// The rule that is found matches the target, and no rule before it does; where
/// none is found, none matches.
pub proof fn lemma_find_rule(target: Seq<char>, rules: Seq<PatternRuleView>, i: int)
    requires
        0 <= i,
    ensures
        match rule_for(target, rules, i) {
            Some(p) => i <= p.0 < rules.len() && rule::stem(target, rules[p.0].target) == Some(p.1)
                && forall|j: int|
                i <= j < p.0 ==> rule::stem(target, (#[trigger] rules[j]).target) is None,
            None => forall|j: int|
                i <= j < rules.len() ==> rule::stem(target, (#[trigger] rules[j]).target) is None,
        },
    decreases rules.len() - i,
{
    if i < rules.len() {
        lemma_find_rule(target, rules, i + 1);
    }
}

/// Whether the link at position `n` of a chain can be made: each prerequisite of
/// its rule is an existing file or is made by a later link.
pub open spec fn supplied(
    c: Seq<(int, Seq<char>)>,
    n: int,
    rules: Seq<PatternRuleView>,
    there: spec_fn(Seq<char>) -> bool,
) -> bool {
    &&& 0 <= c[n].0 < rules.len()
    &&& forall|j: int|
        0 <= j < rules[c[n].0].prereqs.len() ==> available(
            c,
            n,
            rule::applied(#[trigger] rules[c[n].0].prereqs[j], c[n].1),
            rules,
            there,
        )
}

/// Whether a file exists or is made by a link behind position `n`.
pub open spec fn available(
    c: Seq<(int, Seq<char>)>,
    n: int,
    name: Seq<char>,
    rules: Seq<PatternRuleView>,
    there: spec_fn(Seq<char>) -> bool,
) -> bool {
    there(name) || made(c, n + 1, rules, name)
}

/// Whether a link from position `n` on makes a file.
pub open spec fn made(
    c: Seq<(int, Seq<char>)>,
    n: int,
    rules: Seq<PatternRuleView>,
    name: Seq<char>,
) -> bool {
    exists|m: int| n <= m < c.len() && makes(#[trigger] c[m], rules, name)
}

/// Whether a link makes a file.
pub open spec fn makes(
    link: (int, Seq<char>),
    rules: Seq<PatternRuleView>,
    name: Seq<char>,
) -> bool {
    0 <= link.0 < rules.len() && rule::stem(name, rules[link.0].target) == Some(link.1)
}

proof fn lemma_supplied_shift(
    head: Seq<(int, Seq<char>)>,
    c: Seq<(int, Seq<char>)>,
    tail: Seq<(int, Seq<char>)>,
    n: int,
    rules: Seq<PatternRuleView>,
    there: spec_fn(Seq<char>) -> bool,
)
    requires
        0 <= n < c.len(),
        supplied(c, n, rules, there),
    ensures
        supplied(head + c + tail, head.len() + n, rules, there),
{
    let all = head + c + tail;
    let p = head.len() + n;
    assert(all[p] == c[n]);
    assert forall|j: int| 0 <= j < rules[all[p].0].prereqs.len() implies available(
        all,
        p,
        rule::applied(#[trigger] rules[all[p].0].prereqs[j], all[p].1),
        rules,
        there,
    ) by {
        let name = rule::applied(rules[c[n].0].prereqs[j], c[n].1);
        assert(available(c, n, name, rules, there));
        if !there(name) {
            let m = choose|m: int| n + 1 <= m < c.len() && makes(#[trigger] c[m], rules, name);
            assert(all[head.len() + m] == c[m]);
        }
    }
}

/// The first link of a chain makes the target, and every link can be made: its
/// prerequisites exist or are made by later links.
pub proof fn lemma_chain(
    target: Seq<char>,
    rules: Seq<PatternRuleView>,
    there: spec_fn(Seq<char>) -> bool,
    depth: nat,
    i: int,
)
    requires
        0 <= i,
    ensures
        chain(target, rules, there, depth, i) matches Some(c) ==> {
            &&& c.len() > 0
            &&& makes(c[0], rules, target)
            &&& forall|n: int| 0 <= n < c.len() ==> #[trigger] supplied(c, n, rules, there)
        },
    decreases MAX_CHAIN + 1 - depth, 1int, rules.len() - i,
{
    if depth <= MAX_CHAIN && i < rules.len() {
        lemma_chain(target, rules, there, depth, i + 1);
        if let Some(s) = rule::stem(target, rules[i].target) {
            let prereqs = rules[i].prereqs;
            lemma_chains(prereqs, s, rules, there, depth, 0);
            if let Some(rest) = chains(prereqs, s, rules, there, depth, 0) {
                let c = seq![(i, s)] + rest;
                assert forall|n: int| 0 <= n < c.len() implies #[trigger] supplied(
                    c,
                    n,
                    rules,
                    there,
                ) by {
                    if n > 0 {
                        lemma_supplied_shift(
                            seq![(i, s)],
                            rest,
                            seq![],
                            n - 1,
                            rules,
                            there,
                        );
                        assert(seq![(i, s)] + rest + Seq::<(int, Seq<char>)>::empty() =~= c);
                    } else {
                        assert forall|j: int| 0 <= j < prereqs.len() implies available(
                            c,
                            0,
                            rule::applied(#[trigger] prereqs[j], s),
                            rules,
                            there,
                        ) by {
                            let name = rule::applied(prereqs[j], s);
                            if !there(name) {
                                let m = choose|m: int|
                                    0 <= m < rest.len() && makes(#[trigger] rest[m], rules, name);
                                assert(c[m + 1] == rest[m]);
                            }
                        }
                    }
                }
            }
        }
    }
}

proof fn lemma_chains(
    prereqs: Seq<Seq<char>>,
    s: Seq<char>,
    rules: Seq<PatternRuleView>,
    there: spec_fn(Seq<char>) -> bool,
    depth: nat,
    j: int,
)
    requires
        0 <= j,
    ensures
        chains(prereqs, s, rules, there, depth, j) matches Some(c) ==> {
            &&& forall|n: int| 0 <= n < c.len() ==> #[trigger] supplied(c, n, rules, there)
            &&& forall|i: int|
                j <= i < prereqs.len() ==> there(
                    rule::applied(#[trigger] prereqs[i], s),
                ) || made(c, 0, rules, rule::applied(prereqs[i], s))
        },
    decreases MAX_CHAIN + 1 - depth, 0int, prereqs.len() - j,
{
    if depth <= MAX_CHAIN && j < prereqs.len() {
        let name = rule::applied(prereqs[j], s);
        lemma_chains(prereqs, s, rules, there, depth, j + 1);
        if !there(name) {
            lemma_chain(name, rules, there, depth + 1, 0);
        }
        let here = if there(name) {
            Some(Seq::<(int, Seq<char>)>::empty())
        } else {
            chain(name, rules, there, depth + 1, 0)
        };
        if let Some(a) = here {
            if let Some(b) = chains(prereqs, s, rules, there, depth, j + 1) {
                let c = a + b;
                assert(chains(prereqs, s, rules, there, depth, j) == Some(c));
                assert forall|n: int| 0 <= n < c.len() implies #[trigger] supplied(
                    c,
                    n,
                    rules,
                    there,
                ) by {
                    if n < a.len() {
                        lemma_supplied_shift(seq![], a, b, n, rules, there);
                        assert(Seq::<(int, Seq<char>)>::empty() + a + b =~= c);
                    } else {
                        lemma_supplied_shift(a, b, seq![], n - a.len(), rules, there);
                        assert(a + b + Seq::<(int, Seq<char>)>::empty() =~= c);
                    }
                }
                assert forall|i: int| j <= i < prereqs.len() implies there(
                    rule::applied(#[trigger] prereqs[i], s),
                ) || made(c, 0, rules, rule::applied(prereqs[i], s)) by {
                    let x = rule::applied(prereqs[i], s);
                    if !there(x) {
                        if i == j {
                            assert(c[0] == a[0]);
                        } else {
                            let m = choose|m: int|
                                0 <= m < b.len() && makes(#[trigger] b[m], rules, x);
                            assert(c[a.len() + m] == b[m]);
                        }
                    }
                }
            }
        }
    }
}

} // verus!
