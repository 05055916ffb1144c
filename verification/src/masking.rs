//! The masker: an ordered list of regex rules, each replacing every match
//! with a named placeholder, applied before templating. The regex engine is
//! an outside crate; each rule keeps the pattern it was compiled from, and
//! the contracts speak of the rewrite as a function of pattern, replacement
//! and input.

use vstd::prelude::*;
use vstd::string::*;
use crate::text::str_equal;

verus! {

/// Whether `fancy_regex::Regex::new` accepts the pattern: compilation
/// succeeds or fails as a function of the pattern alone.
pub uninterp spec fn regex_valid(pattern: Seq<char>) -> bool;

/// What `fancy_regex::Regex::try_replacen` with limit 0 returns for the
/// regex compiled from `pattern`, on `content`, with `replacement`: the
/// input with every non-overlapping match replaced, or `None` when the
/// engine reports an error (such as an exceeded backtrack limit). The
/// result depends on the three strings alone.
pub uninterp spec fn replaced_with(
    pattern: Seq<char>,
    replacement: Seq<char>,
    content: Seq<char>,
) -> Option<Seq<char>>;

/// The effect of one masking rule: the engine's rewrite when it returns
/// one, the input unchanged otherwise.
pub open spec fn apply_rule_spec(
    pattern: Seq<char>,
    replacement: Seq<char>,
    content: Seq<char>,
) -> Seq<char> {
    match replaced_with(pattern, replacement, content) {
        Some(s) => s,
        None => content,
    }
}

#[verifier::external_type_specification]
#[verifier::external_body]
pub struct ExRegex(fancy_regex::Regex);

/// A masking rule as configured: a regex pattern and the mask name that
/// replaces its matches.
pub struct MaskingInstructionConfig {
    pub pattern: String,
    pub mask_with: String,
}

/// A compiled masking rule. The compiled regex always corresponds to the
/// stored pattern: the fields are private and only the constructor builds a
/// value.
pub struct MaskingInstruction {
    pattern: String,
    mask_with: String,
    regex: fancy_regex::Regex,
}

impl MaskingInstruction {
    /// The pattern this rule was compiled from.
    pub closed spec fn pattern_view(self) -> Seq<char> {
        self.pattern@
    }

    /// The mask name of this rule.
    pub closed spec fn mask_view(self) -> Seq<char> {
        self.mask_with@
    }

    /// Relies on `fancy_regex::Regex::new`: compiles the pattern once;
    /// success is a function of the pattern alone. Returns `None` for a
    /// pattern the engine rejects.
    #[verifier::external_body]
    pub fn new(config: &MaskingInstructionConfig) -> (r: Option<MaskingInstruction>)
        ensures
            r is Some <==> regex_valid(config.pattern@),
            r matches Some(mi) ==> mi.pattern_view() == config.pattern@ && mi.mask_view()
                == config.mask_with@,
    {
        match fancy_regex::Regex::new(config.pattern.as_str()) {
            Ok(re) => Some(
                MaskingInstruction {
                    pattern: config.pattern.clone(),
                    mask_with: config.mask_with.clone(),
                    regex: re,
                },
            ),
            Err(_) => None,
        }
    }

    /// Relies on `fancy_regex::Regex::try_replacen` with limit 0: replaces
    /// every non-overlapping match of the rule's compiled pattern in
    /// `content` by `replacement`; deterministic in the pattern, the
    /// replacement and the input. An engine error leaves the input
    /// unchanged.
    #[verifier::external_body]
    fn apply_regex(&self, content: &str, replacement: &str) -> (r: String)
        ensures
            r@ == apply_rule_spec(self.pattern_view(), replacement@, content@),
            replaced_with(self.pattern_view(), replacement@, content@) matches Some(s) ==> r@ == s,
    {
        match self.regex.try_replacen(content, 0, replacement) {
            Ok(s) => s.into_owned(),
            Err(_) => content.to_string(),
        }
    }
}

/// A masking rule: its name, its pattern, and its effect on a line.
pub trait AbstractMaskingInstruction {
    spec fn pattern_spec(&self) -> Seq<char>;

    spec fn mask_with_spec(&self) -> Seq<char>;

    fn mask_with(&self) -> (r: &str)
        ensures
            r@ == self.mask_with_spec(),
    ;

    fn mask(&self, content: &str, mask_prefix: &str, mask_suffix: &str) -> (r: String)
        ensures
            r@ == apply_rule_spec(
                self.pattern_spec(),
                mask_prefix@ + self.mask_with_spec() + mask_suffix@,
                content@,
            ),
    ;

    fn pattern(&self) -> (r: &str)
        ensures
            r@ == self.pattern_spec(),
    ;
}

impl AbstractMaskingInstruction for MaskingInstruction {
    open spec fn pattern_spec(&self) -> Seq<char> {
        self.pattern_view()
    }

    open spec fn mask_with_spec(&self) -> Seq<char> {
        self.mask_view()
    }

    fn mask_with(&self) -> (r: &str)
        ensures
            r@ == self.mask_with_spec(),
    {
        self.mask_with.as_str()
    }

    fn mask(&self, content: &str, mask_prefix: &str, mask_suffix: &str) -> (r: String)
        ensures
            r@ == apply_rule_spec(
                self.pattern_spec(),
                mask_prefix@ + self.mask_with_spec() + mask_suffix@,
                content@,
            ),
    {
        let mut replacement = String::from_str(mask_prefix);
        replacement.append(self.mask_with.as_str());
        replacement.append(mask_suffix);
        proof {
            assert(replacement@ =~= mask_prefix@ + self.mask_view() + mask_suffix@);
        }
        self.apply_regex(content, replacement.as_str())
    }

    fn pattern(&self) -> (r: &str)
        ensures
            r@ == self.pattern_spec(),
    {
        self.pattern.as_str()
    }
}

/// The rules of a masker as (pattern, mask name) pairs, in order.
pub open spec fn rules_of(instructions: Seq<MaskingInstruction>) -> Seq<(Seq<char>, Seq<char>)> {
    Seq::new(instructions.len(), |i: int| (instructions[i].pattern_view(), instructions[i].mask_view()))
}

/// Sequential application of masking rules, first rule first: later rules
/// see the output of earlier ones.
pub open spec fn mask_seq(
    rules: Seq<(Seq<char>, Seq<char>)>,
    prefix: Seq<char>,
    suffix: Seq<char>,
    content: Seq<char>,
) -> Seq<char>
    decreases rules.len(),
{
    if rules.len() == 0 {
        content
    } else {
        mask_seq(
            rules.drop_first(),
            prefix,
            suffix,
            apply_rule_spec(rules[0].0, prefix + rules[0].1 + suffix, content),
        )
    }
}

/// The distinct mask names of the rules up from position `i`, appended in
/// first-occurrence order to those already collected.
pub open spec fn names_from(rules: Seq<(Seq<char>, Seq<char>)>, i: int, acc: Seq<Seq<char>>) -> Seq<
    Seq<char>,
>
    decreases rules.len() - i,
{
    if i < 0 || i >= rules.len() {
        acc
    } else if acc.contains(rules[i].1) {
        names_from(rules, i + 1, acc)
    } else {
        names_from(rules, i + 1, acc.push(rules[i].1))
    }
}

/// Some rule carries this mask name.
pub open spec fn has_mask_name(rules: Seq<(Seq<char>, Seq<char>)>, name: Seq<char>) -> bool
    decreases rules.len(),
{
    rules.len() > 0 && (rules[0].1 == name || has_mask_name(rules.drop_first(), name))
}

proof fn lemma_has_mask_name_at(rules: Seq<(Seq<char>, Seq<char>)>, j: int, name: Seq<char>)
    requires
        0 <= j < rules.len(),
        rules[j].1 == name,
    ensures
        has_mask_name(rules, name),
    decreases j,
{
    if j > 0 {
        lemma_has_mask_name_at(rules.drop_first(), j - 1, name);
    }
}

/// The patterns of the rules bound to one mask name, in rule order.
pub open spec fn patterns_for_name(rules: Seq<(Seq<char>, Seq<char>)>, name: Seq<char>) -> Seq<
    Seq<char>,
>
    decreases rules.len(),
{
    if rules.len() == 0 {
        Seq::empty()
    } else {
        let rest = patterns_for_name(rules.drop_first(), name);
        if rules[0].1 == name {
            seq![rules[0].0] + rest
        } else {
            rest
        }
    }
}

/// The masker: an ordered rule list and the placeholder affixes.
pub struct LogMasker {
    instructions: Vec<MaskingInstruction>,
    pub mask_prefix: String,
    pub mask_suffix: String,
}

impl LogMasker {
    /// The rules of this masker as (pattern, mask name) pairs.
    pub closed spec fn rules(self) -> Seq<(Seq<char>, Seq<char>)> {
        rules_of(self.instructions@)
    }

    /// The placeholder prefix.
    pub closed spec fn prefix_view(self) -> Seq<char> {
        self.mask_prefix@
    }

    /// The placeholder suffix.
    pub closed spec fn suffix_view(self) -> Seq<char> {
        self.mask_suffix@
    }

    /// The placeholder prefix as a string.
    pub fn get_mask_prefix(&self) -> (r: &str)
        ensures
            r@ == self.prefix_view(),
    {
        self.mask_prefix.as_str()
    }

    /// The placeholder suffix as a string.
    pub fn get_mask_suffix(&self) -> (r: &str)
        ensures
            r@ == self.suffix_view(),
    {
        self.mask_suffix.as_str()
    }

    pub fn new(instructions: Vec<MaskingInstruction>, mask_prefix: &str, mask_suffix: &str) -> (m:
        Self)
        ensures
            m.rules() == rules_of(instructions@),
            m.prefix_view() == mask_prefix@,
            m.suffix_view() == mask_suffix@,
    {
        LogMasker {
            instructions,
            mask_prefix: String::from_str(mask_prefix),
            mask_suffix: String::from_str(mask_suffix),
        }
    }

    /// Applies every rule in declaration order, each replacing all its
    /// matches with `prefix + name + suffix`.
    pub fn mask(&self, content: &str) -> (r: String)
        ensures
            r@ == mask_seq(self.rules(), self.prefix_view(), self.suffix_view(), content@),
    {
        let ghost rules = self.rules();
        let mut masked = String::from_str(content);
        let mut i: usize = 0;
        proof {
            assert(rules.skip(0) =~= rules);
        }
        while i < self.instructions.len()
            invariant
                i <= self.instructions@.len(),
                rules == self.rules(),
                rules.len() == self.instructions@.len(),
                mask_seq(rules, self.mask_prefix@, self.mask_suffix@, content@) == mask_seq(
                    rules.skip(i as int),
                    self.mask_prefix@,
                    self.mask_suffix@,
                    masked@,
                ),
            decreases self.instructions@.len() - i,
        {
            proof {
                assert(rules.skip(i as int)[0] == rules[i as int]);
                assert(rules.skip(i as int).drop_first() =~= rules.skip(i as int + 1));
                assert(rules[i as int] == (self.instructions@[i as int].pattern_view(),
                self.instructions@[i as int].mask_view()));
            }
            masked = self.instructions[i].mask(
                masked.as_str(),
                self.mask_prefix.as_str(),
                self.mask_suffix.as_str(),
            );
            i = i + 1;
        }
        proof {
            assert(rules.skip(rules.len() as int) =~= Seq::<(Seq<char>, Seq<char>)>::empty());
        }
        masked
    }

    /// The distinct mask names of the rules, in first-occurrence order.
    pub fn mask_names(&self) -> (r: Vec<String>)
        ensures
            forall|i: int, j: int| 0 <= i < j < r@.len() ==> r@[i]@ != r@[j]@,
            forall|k: int|
                0 <= k < self.rules().len() ==> r.deep_view().contains(
                    (#[trigger] self.rules()[k]).1,
                ),
            forall|i: int|
                0 <= i < r.deep_view().len() ==> has_mask_name(
                    self.rules(),
                    #[trigger] r.deep_view()[i],
                ),
            r.deep_view() == names_from(self.rules(), 0, Seq::empty()),
    {
        let ghost rules = self.rules();
        let mut r: Vec<String> = Vec::new();
        let ghost mut wit: Seq<int> = Seq::empty();
        let mut k: usize = 0;
        proof {
            assert(r.deep_view() =~~= Seq::<Seq<char>>::empty());
        }
        while k < self.instructions.len()
            invariant
                k <= self.instructions@.len(),
                rules == self.rules(),
                rules.len() == self.instructions@.len(),
                forall|i: int, j: int| 0 <= i < j < r@.len() ==> r@[i]@ != r@[j]@,
                forall|j: int| 0 <= j < k ==> r.deep_view().contains((#[trigger] rules[j]).1),
                wit.len() == r.deep_view().len(),
                forall|i: int|
                    0 <= i < wit.len() ==> 0 <= #[trigger] wit[i] < rules.len() && rules[wit[i]].1
                        == r.deep_view()[i],
                names_from(rules, k as int, r.deep_view()) == names_from(rules, 0, Seq::empty()),
            decreases self.instructions@.len() - k,
        {
            proof {
                assert(rules[k as int].1 == self.instructions@[k as int].mask_view());
            }
            if !contains_string(&r, self.instructions[k].mask_with()) {
                let ghost old_r = r;
                r.push(String::from_str(self.instructions[k].mask_with()));
                proof {
                    wit = wit.push(k as int);
                    assert(r.deep_view() =~= old_r.deep_view().push(rules[k as int].1));
                    assert(r.deep_view()[r@.len() - 1] == rules[k as int].1);
                    assert(!old_r.deep_view().contains(rules[k as int].1));
                    assert(forall|w: int|
                        0 <= w < old_r.deep_view().len() ==> (#[trigger] old_r.deep_view()[w])
                            != rules[k as int].1);
                    assert forall|i2: int, j2: int| 0 <= i2 < j2 < r@.len() implies r@[i2]@
                        != r@[j2]@ by {
                        if j2 == r@.len() - 1 {
                            assert(r@[i2]@ == old_r.deep_view()[i2]);
                            assert(r@[j2]@ == rules[k as int].1);
                        } else {
                            assert(r@[i2]@ == old_r@[i2]@ && r@[j2]@ == old_r@[j2]@);
                        }
                    }
                    assert forall|j: int| 0 <= j < k + 1 implies r.deep_view().contains(
                        (#[trigger] rules[j]).1,
                    ) by {
                        if j < k {
                            let w = choose|w: int|
                                0 <= w < old_r.deep_view().len() && old_r.deep_view()[w] == rules[
                                j].1;
                            assert(r.deep_view()[w] == rules[j].1);
                        } else {
                            assert(r.deep_view()[r@.len() - 1] == rules[j].1);
                        }
                    }
                    assert forall|i2: int|
                        0 <= i2 < wit.len() implies 0 <= #[trigger] wit[i2] < rules.len()
                        && rules[wit[i2]].1 == r.deep_view()[i2] by {
                        if i2 < wit.len() - 1 {
                            assert(r.deep_view()[i2] == old_r.deep_view()[i2]);
                        } else {
                            assert(r.deep_view()[i2] == rules[k as int].1);
                        }
                    }
                }
            } else {
                proof {
                    assert(r.deep_view().contains(rules[k as int].1));
                }
            }
            k = k + 1;
        }
        proof {
            assert forall|i: int| 0 <= i < r.deep_view().len() implies has_mask_name(
                self.rules(),
                #[trigger] r.deep_view()[i],
            ) by {
                lemma_has_mask_name_at(self.rules(), wit[i], r.deep_view()[i]);
            }
        }
        r
    }

    /// The rules bound to `mask_name`, in rule order.
    pub fn instructions_by_mask_name(&self, mask_name: &str) -> (r: Vec<&MaskingInstruction>)
        ensures
            r@.len() == patterns_for_name(self.rules(), mask_name@).len(),
            forall|i: int|
                0 <= i < r@.len() ==> (#[trigger] r@[i]).pattern_view() == patterns_for_name(
                    self.rules(),
                    mask_name@,
                )[i] && r@[i].mask_view() == mask_name@,
    {
        let ghost rules = self.rules();
        let mut r: Vec<&MaskingInstruction> = Vec::new();
        let mut k: usize = 0;
        proof {
            assert(rules.skip(0) =~= rules);
        }
        while k < self.instructions.len()
            invariant
                k <= self.instructions@.len(),
                rules == self.rules(),
                rules.len() == self.instructions@.len(),
                patterns_for_name(rules, mask_name@) == patterns_of(r@) + patterns_for_name(
                    rules.skip(k as int),
                    mask_name@,
                ),
                forall|i: int| 0 <= i < r@.len() ==> (#[trigger] r@[i]).mask_view() == mask_name@,
            decreases self.instructions@.len() - k,
        {
            proof {
                assert(rules.skip(k as int)[0] == rules[k as int]);
                assert(rules.skip(k as int).drop_first() =~= rules.skip(k as int + 1));
                assert(rules[k as int] == (self.instructions@[k as int].pattern_view(),
                self.instructions@[k as int].mask_view()));
            }
            if str_equal(self.instructions[k].mask_with(), mask_name) {
                let ghost old_r = r;
                r.push(&self.instructions[k]);
                proof {
                    assert(patterns_of(r@) =~= patterns_of(old_r@).push(
                        rules[k as int].0,
                    ));
                    assert(patterns_of(old_r@) + (seq![rules[k as int].0] + patterns_for_name(
                        rules.skip(k as int + 1),
                        mask_name@,
                    )) =~= patterns_of(r@) + patterns_for_name(rules.skip(k as int + 1), mask_name@));
                }
            }
            k = k + 1;
        }
        proof {
            assert(rules.skip(rules.len() as int) =~= Seq::<(Seq<char>, Seq<char>)>::empty());
            assert(patterns_of(r@) + Seq::<Seq<char>>::empty() =~= patterns_of(r@));
        }
        r
    }
}

/// The patterns of a list of rule references, in order.
pub open spec fn patterns_of(rs: Seq<&MaskingInstruction>) -> Seq<Seq<char>> {
    Seq::new(rs.len(), |i: int| rs[i].pattern_view())
}

/// The vector holds a string with this view.
fn contains_string(v: &Vec<String>, s: &str) -> (b: bool)
    ensures
        b == v.deep_view().contains(s@),
{
    let mut i: usize = 0;
    while i < v.len()
        invariant
            i <= v@.len(),
            forall|j: int| 0 <= j < i ==> v.deep_view()[j] != s@,
        decreases v@.len() - i,
    {
        if str_equal(v[i].as_str(), s) {
            proof {
                assert(v.deep_view()[i as int] == s@);
            }
            return true;
        }
        i = i + 1;
    }
    false
}

/// A line that every rule leaves unchanged is a fixed point of the whole
/// masker.
pub proof fn lemma_mask_fixed(
    rules: Seq<(Seq<char>, Seq<char>)>,
    prefix: Seq<char>,
    suffix: Seq<char>,
    y: Seq<char>,
)
    requires
        forall|i: int|
            0 <= i < rules.len() ==> apply_rule_spec(
                (#[trigger] rules[i]).0,
                prefix + rules[i].1 + suffix,
                y,
            ) == y,
    ensures
        mask_seq(rules, prefix, suffix, y) == y,
    decreases rules.len(),
{
    if rules.len() > 0 {
        assert(forall|i: int|
            0 <= i < rules.drop_first().len() ==> rules.drop_first()[i] == rules[i + 1]);
        lemma_mask_fixed(rules.drop_first(), prefix, suffix, y);
    }
}

/// Masking is idempotent whenever no rule rewrites the masked line again:
/// if every rule leaves `mask(x)` unchanged, then `mask(mask(x))` equals
/// `mask(x)`.
pub proof fn lemma_mask_idempotent(
    rules: Seq<(Seq<char>, Seq<char>)>,
    prefix: Seq<char>,
    suffix: Seq<char>,
    content: Seq<char>,
)
    requires
        forall|i: int|
            0 <= i < rules.len() ==> apply_rule_spec(
                (#[trigger] rules[i]).0,
                prefix + rules[i].1 + suffix,
                mask_seq(rules, prefix, suffix, content),
            ) == mask_seq(rules, prefix, suffix, content),
    ensures
        mask_seq(rules, prefix, suffix, mask_seq(rules, prefix, suffix, content)) == mask_seq(
            rules,
            prefix,
            suffix,
            content,
        ),
{
    lemma_mask_fixed(rules, prefix, suffix, mask_seq(rules, prefix, suffix, content));
}

} // verus!
